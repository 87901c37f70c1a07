//! Streaming transform-domain audio crunch: FFT windows, throw away / quantize
//! weak coefficients (what lossy codecs do), overlap-add back.
use crate::audio::silence;
use crate::calc::{Calc, Op, Width};
use crate::fft::{fft, hann_of, magnitude, paired, transformed, Cpx};
use crate::fx::lerp;
use crate::num::{single, F32};
use std::collections::VecDeque;
use vstd::arithmetic::power2::{lemma2_to64, pow2};
use vstd::prelude::*;

verus! {

/// The length of a window, and the latency of the stream.
pub const SPECTRAL_N: usize = 1024;

/// From one window to the next.
pub const SPECTRAL_HOP: usize = 512;

// ------------------------------------------------------------------ sorting

/// A descending run with one value more, after all that are not below it.
pub open spec fn put_down(s: Seq<F32>, x: F32) -> Seq<F32>
    decreases s.len(),
{
    if s.len() == 0 || !s.last().lt(x) {
        s.push(x)
    } else {
        put_down(s.drop_last(), x).push(s.last())
    }
}

/// The values from the greatest down; equal ones stay in order.
pub open spec fn descending(xs: Seq<F32>) -> Seq<F32>
    decreases xs.len(),
{
    if xs.len() == 0 {
        xs
    } else {
        put_down(descending(xs.drop_last()), xs.last())
    }
}

proof fn lemma_put_down(s: Seq<F32>, x: F32, p: int)
    requires
        0 <= p <= s.len(),
        forall|j: int| p <= j < s.len() ==> (#[trigger] s[j]).lt(x),
        p == 0 || !s[p - 1].lt(x),
    ensures
        put_down(s, x) == s.insert(p, x),
    decreases s.len(),
{
    if p == s.len() {
        assert(s.insert(p, x) =~= s.push(x));
    } else {
        assert(s.last().lt(x));
        let t = s.drop_last();
        assert forall|j: int| p <= j < t.len() implies (#[trigger] t[j]).lt(x) by {
            assert(s[j].lt(x));
        }
        lemma_put_down(t, x, p);
        assert(s.insert(p, x) =~= t.insert(p, x).push(s.last()));
    }
}

proof fn lemma_put_down_keeps(s: Seq<F32>, x: F32)
    ensures
        put_down(s, x).len() == s.len() + 1,
        put_down(s, x).to_multiset() =~= s.to_multiset().insert(x),
    decreases s.len(),
{
    broadcast use vstd::seq_lib::group_to_multiset_ensures;

    if s.len() > 0 && s.last().lt(x) {
        lemma_put_down_keeps(s.drop_last(), x);
        assert(s =~= s.drop_last().push(s.last()));
    }
}

proof fn lemma_put_down_sorts(s: Seq<F32>, x: F32)
    requires
        !x.nan(),
        forall|i: int| 0 <= i < s.len() ==> !(#[trigger] s[i]).nan(),
        forall|i: int, j: int| 0 <= i < j < s.len() ==> !s[i].lt(s[j]),
    ensures
        forall|i: int|
            0 <= i < put_down(s, x).len() ==> !(#[trigger] put_down(s, x)[i]).nan() && (s.len() > 0
                && s.last().lt(x) || !put_down(s, x)[i].lt(x) || put_down(s, x)[i] == x),
        forall|i: int, j: int|
            0 <= i < j < put_down(s, x).len() ==> !put_down(s, x)[i].lt(put_down(s, x)[j]),
        forall|i: int|
            0 <= i < put_down(s, x).len() ==> (#[trigger] put_down(s, x)[i]) == x || exists|k: int|
                0 <= k < s.len() && put_down(s, x)[i] == #[trigger] s[k],
    decreases s.len(),
{
    let r = put_down(s, x);
    if s.len() == 0 || !s.last().lt(x) {
        assert forall|i: int, j: int| 0 <= i < j < r.len() implies !r[i].lt(r[j]) by {
            if j == s.len() {
                assert(!s.last().lt(x));
                if i < s.len() - 1 {
                    assert(!s[i].lt(s[s.len() - 1]));
                }
            }
        }
        assert forall|i: int| 0 <= i < r.len() implies (#[trigger] r[i]) == x || exists|k: int|
            0 <= k < s.len() && r[i] == #[trigger] s[k] by {
            if i < s.len() {
                assert(r[i] == s[i]);
            }
        }
        assert forall|i: int| 0 <= i < r.len() implies !(#[trigger] r[i]).nan() && (!r[i].lt(x)
            || r[i] == x) by {
            if i < s.len() {
                assert(r[i] == s[i]);
                if i < s.len() - 1 {
                    assert(!s[i].lt(s[s.len() - 1]));
                }
            }
        }
    } else {
        let t = s.drop_last();
        assert forall|i: int| 0 <= i < t.len() implies !(#[trigger] t[i]).nan() by {
            assert(!s[i].nan());
        }
        assert forall|i: int, j: int| 0 <= i < j < t.len() implies !t[i].lt(t[j]) by {
            assert(!s[i].lt(s[j]));
        }
        lemma_put_down_sorts(t, x);
        let q = put_down(t, x);
        assert(r == q.push(s.last()));
        assert forall|i: int| 0 <= i < r.len() implies !(#[trigger] r[i]).nan() by {
            if i < q.len() {
                assert(!q[i].nan());
            } else {
                assert(!s[s.len() - 1].nan());
            }
        }
        assert forall|i: int| 0 <= i < r.len() implies (#[trigger] r[i]) == x || exists|k: int|
            0 <= k < s.len() && r[i] == #[trigger] s[k] by {
            if i < q.len() {
                assert(q[i] == r[i]);
                if q[i] != x {
                    let k = choose|k: int| 0 <= k < t.len() && q[i] == #[trigger] t[k];
                    assert(r[i] == s[k]);
                }
            } else {
                assert(r[i] == s[s.len() - 1]);
            }
        }
        assert forall|i: int, j: int| 0 <= i < j < r.len() implies !r[i].lt(r[j]) by {
            if j < q.len() {
                assert(!q[i].lt(q[j]));
            } else {
                assert(q[i] == r[i]);
                if q[i] != x {
                    let k = choose|k: int| 0 <= k < t.len() && q[i] == #[trigger] t[k];
                    assert(!s[k].lt(s[s.len() - 1]));
                }
            }
        }
    }
}

/// Sorting keeps the values, and where all of them are numbers none is below a
/// later one.
pub proof fn law_descending_sorts(xs: Seq<F32>)
    ensures
        descending(xs).len() == xs.len(),
        descending(xs).to_multiset() == xs.to_multiset(),
        (forall|i: int| 0 <= i < xs.len() ==> !(#[trigger] xs[i]).nan()) ==> forall|i: int, j: int|
            0 <= i < j < xs.len() ==> !(#[trigger] descending(xs)[i]).lt(#[trigger] descending(xs)[j]),
    decreases xs.len(),
{
    lemma_descending(xs);
}

proof fn lemma_descending(xs: Seq<F32>)
    ensures
        descending(xs).len() == xs.len(),
        descending(xs).to_multiset() == xs.to_multiset(),
        (forall|i: int| 0 <= i < xs.len() ==> !(#[trigger] xs[i]).nan()) ==> forall|i: int|
            0 <= i < xs.len() ==> !(#[trigger] descending(xs)[i]).nan(),
        (forall|i: int| 0 <= i < xs.len() ==> !(#[trigger] xs[i]).nan()) ==> forall|i: int, j: int|
            0 <= i < j < xs.len() ==> !(#[trigger] descending(xs)[i]).lt(#[trigger] descending(xs)[j]),
    decreases xs.len(),
{
    broadcast use vstd::seq_lib::group_to_multiset_ensures;

    if xs.len() > 0 {
        let ys = xs.drop_last();
        lemma_descending(ys);
        lemma_put_down_keeps(descending(ys), xs.last());
        assert(xs =~= ys.push(xs.last()));
        if forall|i: int| 0 <= i < xs.len() ==> !(#[trigger] xs[i]).nan() {
            assert forall|i: int| 0 <= i < ys.len() implies !(#[trigger] ys[i]).nan() by {
                assert(!xs[i].nan());
            }
            assert(!xs[xs.len() - 1].nan());
            lemma_put_down_sorts(descending(ys), xs.last());
        }
    }
}

/// The values from the greatest down.
pub fn sort_descending(xs: &Vec<F32>) -> (r: Vec<F32>)
    ensures
        r@ == descending(xs@),
        r@.len() == xs@.len(),
{
    let mut out: Vec<F32> = Vec::new();
    let mut i: usize = 0;
    while i < xs.len()
        invariant
            i <= xs@.len(),
            out@ == descending(xs@.take(i as int)),
            out@.len() == i,
        decreases xs.len() - i,
    {
        let x: F32 = xs[i];
        let mut p: usize = out.len();
        while p > 0 && out[p - 1].lt(x)
            invariant
                p <= out@.len(),
                forall|j: int| p <= j < out@.len() ==> (#[trigger] out@[j]).lt(x),
            decreases p,
        {
            p -= 1;
        }
        proof {
            lemma_put_down(out@, x, p as int);
            assert(xs@.take(i + 1).drop_last() =~= xs@.take(i as int));
        }
        out.insert(p, x);
        i += 1;
    }
    assert(xs@.take(i as int) =~= xs@);
    out
}

// ------------------------------------------------------------------ windows

/// How many coefficients a quality keeps.
#[verifier::allow_in_spec]
pub fn kept_bins<K: Fn(Op, Width, u64, u64) -> u64>(c: &Calc<K>, q: F32) -> usize
    requires
        c.sound(),
    returns
        (F32::of_count(c, SPECTRAL_HOP as u64).mul(c, single(0x3ca3_d70a).add(c, single(0x3f7a_e148).mul(c, q).mul(c, q))).to_size(c)),
{
    F32::of_count(c, SPECTRAL_HOP as u64).mul(c, single(0x3ca3_d70a).add(c, single(0x3f7a_e148).mul(c, q).mul(c, q))).to_size(c)
}

/// How a coefficient of that magnitude is scaled: what is below the threshold goes, the
/// rest is rounded to `levels` steps of the greatest magnitude.
#[verifier::allow_in_spec]
pub fn bin_gain<K: Fn(Op, Width, u64, u64) -> u64>(c: &Calc<K>, mag: F32, threshold: F32, top: F32, levels: F32) -> F32
    requires
        c.sound(),
    returns
        (if single(0x3089_705f).lt(mag) {
            if mag.lt(threshold) {
                single(0).div(c, mag)
            } else {
                mag.div(c, top).mul(c, levels).round(c).div(c, levels).mul(c, top).div(c, mag)
            }
        } else {
            single(0)
        }),
{
    if single(0x3089_705f).lt(mag) {
        if mag.lt(threshold) {
            single(0).div(c, mag)
        } else {
            mag.div(c, top).mul(c, levels).round(c).div(c, levels).mul(c, top).div(c, mag)
        }
    } else {
        single(0)
    }
}

/// A window's samples, weighted.
pub open spec fn windowed<K: Fn(Op, Width, u64, u64) -> u64>(c: &Calc<K>, x: Seq<F32>) -> Seq<F32> {
    Seq::new(SPECTRAL_N as nat, |i: int| x[i].mul(c, hann_of(c, i as u64, SPECTRAL_N as u64)))
}

/// A window's spectrum.
pub open spec fn spectrum<K: Fn(Op, Width, u64, u64) -> u64>(c: &Calc<K>, x: Seq<F32>) -> Seq<Cpx> {
    transformed(
        c,
        paired(windowed(c, x), Seq::new(SPECTRAL_N as nat, |i: int| single(0))),
        10,
        false,
    )
}

/// The magnitudes of the lower half of a spectrum.
pub open spec fn magnitudes<K: Fn(Op, Width, u64, u64) -> u64>(c: &Calc<K>, s: Seq<Cpx>) -> Seq<F32> {
    Seq::new(SPECTRAL_HOP as nat, |i: int| magnitude(c, s[i]))
}

/// The magnitude below which a quality drops coefficients.
pub open spec fn threshold_of<K: Fn(Op, Width, u64, u64) -> u64>(c: &Calc<K>, mags: Seq<F32>, q: F32) -> F32 {
    let keep = kept_bins(c, q);
    descending(mags)[if keep < SPECTRAL_HOP - 1 {
        keep as int
    } else {
        SPECTRAL_HOP - 1
    }]
}

/// The coefficient that coefficient `j` mirrors.
pub open spec fn mirrored(j: int) -> int {
    if j <= SPECTRAL_HOP {
        j
    } else {
        SPECTRAL_N - j
    }
}

/// How coefficient `i` of a spectrum is scaled at a quality.
pub open spec fn gain_at<K: Fn(Op, Width, u64, u64) -> u64>(c: &Calc<K>, s: Seq<Cpx>, q: F32, i: int) -> F32 {
    bin_gain(
        c,
        magnitude(c, s[i]),
        threshold_of(c, magnitudes(c, s), q),
        descending(magnitudes(c, s))[0].max(single(0x3089_705f)),
        lerp(c, single(0x40c0_0000), single(0x4380_0000), q),
    )
}

/// A spectrum after the crunch. The upper half mirrors the lower one.
pub open spec fn thinned<K: Fn(Op, Width, u64, u64) -> u64>(c: &Calc<K>, s: Seq<Cpx>, q: F32) -> Seq<Cpx> {
    Seq::new(
        SPECTRAL_N as nat,
        |j: int|
            Cpx {
                re: s[j].re.mul(c, gain_at(c, s, q, mirrored(j))),
                im: s[j].im.mul(c, gain_at(c, s, q, mirrored(j))),
            },
    )
}

/// What the crunch makes of a window's samples.
pub open spec fn crunched<K: Fn(Op, Width, u64, u64) -> u64>(c: &Calc<K>, x: Seq<F32>, q: F32) -> Seq<F32> {
    transformed(c, thinned(c, spectrum(c, x), q), 10, true).map_values(|z: Cpx| z.re)
}

fn gains<K: Fn(Op, Width, u64, u64) -> u64>(c: &Calc<K>, re: &Vec<F32>, im: &Vec<F32>, q: F32) -> (r: Vec<F32>)
    requires
        c.sound(),
        re@.len() == SPECTRAL_N,
        im@.len() == SPECTRAL_N,
    ensures
        r@.len() == SPECTRAL_HOP + 1,
        forall|i: int|
            0 <= i <= SPECTRAL_HOP ==> r@[i] == gain_at(c, paired(re@, im@), q, i),
{
    let ghost s = paired(re@, im@);
    let mut mags: Vec<F32> = Vec::new();
    let mut i: usize = 0;
    while i < SPECTRAL_HOP
        invariant
            c.sound(),
            i <= SPECTRAL_HOP,
            re@.len() == SPECTRAL_N,
            im@.len() == SPECTRAL_N,
            s == paired(re@, im@),
            mags@ =~= magnitudes(c, s).take(i as int),
        decreases SPECTRAL_HOP - i,
    {
        mags.push(magnitude(c, Cpx { re: re[i], im: im[i] }));
        i += 1;
    }
    assert(mags@ =~= magnitudes(c, s));
    let sorted: Vec<F32> = sort_descending(&mags);
    let keep: usize = kept_bins(c, q);
    let threshold: F32 = sorted[if keep < SPECTRAL_HOP - 1 { keep } else { SPECTRAL_HOP - 1 }];
    let top: F32 = sorted[0].max(single(0x3089_705f));
    let levels: F32 = lerp(c, single(0x40c0_0000), single(0x4380_0000), q);
    let mut out: Vec<F32> = Vec::new();
    let mut k: usize = 0;
    while k <= SPECTRAL_HOP
        invariant
            c.sound(),
            k <= SPECTRAL_HOP + 1,
            re@.len() == SPECTRAL_N,
            im@.len() == SPECTRAL_N,
            s == paired(re@, im@),
            threshold == threshold_of(c, magnitudes(c, s), q),
            top == descending(magnitudes(c, s))[0].max(single(0x3089_705f)),
            levels == lerp(c, single(0x40c0_0000), single(0x4380_0000), q),
            out@.len() == k,
            forall|j: int| 0 <= j < k ==> out@[j] == gain_at(c, s, q, j),
        decreases SPECTRAL_HOP + 1 - k,
    {
        let mag: F32 = magnitude(c, Cpx { re: re[k], im: im[k] });
        out.push(bin_gain(c, mag, threshold, top, levels));
        k += 1;
    }
    out
}

fn crunch<K: Fn(Op, Width, u64, u64) -> u64>(c: &Calc<K>, buf: &Vec<F32>, start: usize, q: F32) -> (r: Vec<F32>)
    requires
        c.sound(),
        start + SPECTRAL_N <= buf@.len(),
    ensures
        r@.len() == SPECTRAL_N,
        r@ == crunched(c, buf@.subrange(start as int, start + SPECTRAL_N), q),
{
    let ghost x = buf@.subrange(start as int, start + SPECTRAL_N);
    assert(buf.len() >= start + SPECTRAL_N);
    let mut re: Vec<F32> = Vec::new();
    let mut i: usize = 0;
    while i < SPECTRAL_N
        invariant
            c.sound(),
            i <= SPECTRAL_N,
            start + SPECTRAL_N <= buf.len(),
            x == buf@.subrange(start as int, start + SPECTRAL_N),
            re@ =~= windowed(c, x).take(i as int),
        decreases SPECTRAL_N - i,
    {
        re.push(buf[start + i].mul(c, hann_of(c, i as u64, SPECTRAL_N as u64)));
        i += 1;
    }
    assert(re@ =~= windowed(c, x));
    let mut im: Vec<F32> = silence(SPECTRAL_N);
    proof {
        lemma2_to64();
        assert(re@.len() == pow2(10));
    }
    fft(c, &mut re, &mut im, false);
    let ghost s = paired(re@, im@);
    assert(s == spectrum(c, x));
    let g: Vec<F32> = gains(c, &re, &im, q);
    let ghost want = thinned(c, s, q);
    let mut j: usize = 0;
    while j < SPECTRAL_N
        invariant
            c.sound(),
            j <= SPECTRAL_N,
            re@.len() == SPECTRAL_N,
            im@.len() == SPECTRAL_N,
            s.len() == SPECTRAL_N,
            g@.len() == SPECTRAL_HOP + 1,
            want == thinned(c, s, q),
            forall|k: int| 0 <= k <= SPECTRAL_HOP ==> g@[k] == gain_at(c, s, q, k),
            forall|k: int| 0 <= k < j ==> paired(re@, im@)[k] == want[k],
            forall|k: int| j <= k < SPECTRAL_N ==> paired(re@, im@)[k] == s[k],
        decreases SPECTRAL_N - j,
    {
        let ghost before = paired(re@, im@);
        assert(before[j as int] == s[j as int]);
        let m: usize = if j <= SPECTRAL_HOP { j } else { SPECTRAL_N - j };
        let a: F32 = re[j].mul(c, g[m]);
        let b: F32 = im[j].mul(c, g[m]);
        re.set(j, a);
        im.set(j, b);
        proof {
            assert forall|k: int| 0 <= k < SPECTRAL_N && k != j implies paired(re@, im@)[k]
                == before[k] by {}
            assert(paired(re@, im@)[j as int] == want[j as int]);
        }
        j += 1;
    }
    assert(paired(re@, im@) =~= want);
    proof {
        lemma2_to64();
        assert(re@.len() == pow2(10));
    }
    fft(c, &mut re, &mut im, true);
    proof {
        let z = transformed(c, want, 10, true);
        assert(paired(re@, im@) == z);
        assert(re@ =~= z.map_values(|z: Cpx| z.re)) by {
            assert forall|k: int| 0 <= k < re@.len() implies re@[k] == z.map_values(
                |z: Cpx| z.re,
            )[k] by {
                assert(paired(re@, im@)[k].re == re@[k]);
            }
        }
    }
    re
}

// ---------------------------------------------------------------- streaming

/// How many windows start in the first `len` samples of a stream and end there.
pub open spec fn windows_in(len: int) -> int {
    if len < SPECTRAL_N {
        0
    } else {
        (len - SPECTRAL_N) / SPECTRAL_HOP as int + 1
    }
}

/// A sum of windows with one window more, from sample `at` on.
pub open spec fn overlaid<K: Fn(Op, Width, u64, u64) -> u64>(c: &Calc<K>, acc: Seq<F32>, w: Seq<F32>, at: int) -> Seq<F32> {
    Seq::new(
        acc.len(),
        |p: int|
            if at <= p < at + w.len() {
                acc[p].add(c, w[p - at])
            } else {
                acc[p]
            },
    )
}

/// The sum of the first `k` windows' crunched samples on top of `acc`.
pub open spec fn overlapped<K: Fn(Op, Width, u64, u64) -> u64>(c: &Calc<K>, q: F32, buf: Seq<F32>, acc: Seq<F32>, k: int) -> Seq<F32>
    decreases k,
{
    if k <= 0 {
        acc
    } else {
        let at = (k - 1) * SPECTRAL_HOP;
        overlaid(
            c,
            overlapped(c, q, buf, acc, k - 1),
            crunched(c, buf.subrange(at, at + SPECTRAL_N), q),
            at,
        )
    }
}

/// Streaming transform-domain audio crunch for one channel: FFT windows,
/// throw away / quantize weak coefficients (what lossy codecs do),
/// overlap-add back. Emits 1:1 samples with SPECTRAL_N latency.
#[derive(Debug)]
pub struct SpectralState {
    /// Input samples not yet fully consumed by window starts.
    pub buf: Vec<F32>,
    /// OLA accumulator aligned with buf[0].
    pub acc: Vec<F32>,
    /// Output FIFO of finalized samples, primed with SPECTRAL_N zeros so
    /// the stream latency is exactly SPECTRAL_N for any block size.
    pub out: VecDeque<F32>,
}

/// What a spectral state holds.
pub struct SpectralView {
    pub buf: Seq<F32>,
    pub acc: Seq<F32>,
    pub out: Seq<F32>,
}

impl View for SpectralState {
    type V = SpectralView;

    open spec fn view(&self) -> SpectralView {
        SpectralView { buf: self.buf@, acc: self.acc@, out: self.out@ }
    }
}

impl SpectralView {
    /// What is pending and what is ready make one window; no window is complete.
    pub open spec fn wf(self) -> bool {
        &&& self.acc.len() == self.buf.len()
        &&& self.buf.len() < SPECTRAL_N
        &&& self.buf.len() + self.out.len() == SPECTRAL_N
    }
}

/// `n` silent samples.
pub open spec fn zeros(n: nat) -> Seq<F32> {
    Seq::new(n, |i: int| single(0))
}

/// A stream before its first sample.
pub open spec fn fresh_spectral() -> SpectralView {
    SpectralView { buf: Seq::empty(), acc: Seq::empty(), out: zeros(SPECTRAL_N as nat) }
}

/// What a stream makes of a block of samples at a quality of 0..=1.
pub open spec fn spectral_block<K: Fn(Op, Width, u64, u64) -> u64>(c: &Calc<K>, q: F32, s: SpectralView, xs: Seq<F32>) -> (SpectralView, Seq<F32>) {
    let buf = s.buf + xs;
    let k = windows_in(buf.len() as int);
    let acc = overlapped(c, q, buf, s.acc + zeros(xs.len()), k);
    let done = k * SPECTRAL_HOP;
    let out = s.out + acc.take(done);
    (
        SpectralView {
            buf: buf.skip(done),
            acc: acc.skip(done),
            out: out.skip(xs.len() as int),
        },
        out.take(xs.len() as int),
    )
}

pub(crate) proof fn lemma_windows(len: int)
    requires
        0 <= len,
    ensures
        0 <= windows_in(len) * SPECTRAL_HOP <= len,
        len - windows_in(len) * SPECTRAL_HOP < SPECTRAL_N,
        0 <= windows_in(len),
        windows_in(len) > 0 ==> (windows_in(len) - 1) * SPECTRAL_HOP + SPECTRAL_N <= len,
{
}

proof fn lemma_overlapped_len<K: Fn(Op, Width, u64, u64) -> u64>(c: &Calc<K>, q: F32, buf: Seq<F32>, acc: Seq<F32>, k: int)
    ensures
        overlapped(c, q, buf, acc, k).len() == acc.len(),
    decreases k,
{
    if k > 0 {
        lemma_overlapped_len(c, q, buf, acc, k - 1);
    }
}

proof fn lemma_crunched_len<K: Fn(Op, Width, u64, u64) -> u64>(c: &Calc<K>, x: Seq<F32>, q: F32)
    ensures
        crunched(c, x, q).len() == SPECTRAL_N,
{
    let t = thinned(c, spectrum(c, x), q);
    lemma_stages_len(c, crate::fft::reordered(t, 10), 10, true);
}

proof fn lemma_stages_len<K: Fn(Op, Width, u64, u64) -> u64>(c: &Calc<K>, d: Seq<Cpx>, n: nat, inverse: bool)
    ensures
        crate::fft::stages(c, d, n, inverse).len() == d.len(),
    decreases n,
{
    if n > 0 {
        lemma_stages_len(c, d, (n - 1) as nat, inverse);
    }
}

/// A block of samples gives as many, the output never runs dry, and the state
/// stays in order.
pub proof fn law_spectral_blocks_never_underrun<K: Fn(Op, Width, u64, u64) -> u64>(c: &Calc<K>, q: F32, s: SpectralView, xs: Seq<F32>)
    requires
        s.wf(),
    ensures
        spectral_block(c, q, s, xs).0.wf(),
        spectral_block(c, q, s, xs).1.len() == xs.len(),
{
    let buf = s.buf + xs;
    lemma_windows(buf.len() as int);
    lemma_overlapped_len(
        c,
        q,
        buf,
        s.acc + zeros(xs.len()),
        windows_in(buf.len() as int),
    );
}

/// The stream is late by exactly one window: the first SPECTRAL_N samples are
/// silent, and sample `i` after them is the crunched sum at sample
/// `i - SPECTRAL_N` of the input.
pub proof fn law_spectral_latency<K: Fn(Op, Width, u64, u64) -> u64>(c: &Calc<K>, q: F32, xs: Seq<F32>, i: int)
    requires
        0 <= i < xs.len(),
    ensures
        fresh_spectral().wf(),
        spectral_block(c, q, fresh_spectral(), xs).1[i] == if i < SPECTRAL_N {
            single(0)
        } else {
            overlapped(c, q, xs, zeros(xs.len()), windows_in(xs.len() as int))[i - SPECTRAL_N]
        },
{
    let s = fresh_spectral();
    lemma_windows(xs.len() as int);
    assert(s.buf + xs =~= xs);
    assert(s.acc + zeros(xs.len()) =~= zeros(xs.len()));
    lemma_overlapped_len(c, q, xs, zeros(xs.len()), windows_in(xs.len() as int));
}

proof fn lemma_overlapped_prefix<K: Fn(Op, Width, u64, u64) -> u64>(c: &Calc<K>, q: F32, buf: Seq<F32>, acc: Seq<F32>, more: Seq<F32>, rest: Seq<F32>, k: int)
    requires
        acc.len() == buf.len(),
        more.len() == rest.len(),
        0 <= k <= windows_in(buf.len() as int),
    ensures
        overlapped(c, q, buf + more, acc + rest, k) == overlapped(c, q, buf, acc, k) + rest,
    decreases k,
{
    if k > 0 {
        lemma_overlapped_prefix(c, q, buf, acc, more, rest, k - 1);
        lemma_windows(buf.len() as int);
        lemma_overlapped_len(c, q, buf, acc, k - 1);
        let at = (k - 1) * SPECTRAL_HOP;
        assert(at + SPECTRAL_N <= buf.len());
        assert((buf + more).subrange(at, at + SPECTRAL_N) =~= buf.subrange(at, at + SPECTRAL_N));
        let w = crunched(c, buf.subrange(at, at + SPECTRAL_N), q);
        lemma_crunched_len(c, buf.subrange(at, at + SPECTRAL_N), q);
        let a = overlapped(c, q, buf, acc, k - 1);
        assert(overlaid(c, a + rest, w, at) =~= overlaid(c, a, w, at) + rest);
    } else {
    }
}

proof fn lemma_overlapped_shift<K: Fn(Op, Width, u64, u64) -> u64>(c: &Calc<K>, q: F32, buf: Seq<F32>, acc: Seq<F32>, first: int, k: int)
    requires
        acc.len() == buf.len(),
        0 <= first,
        0 <= k,
        first * SPECTRAL_HOP <= buf.len(),
        k > 0 ==> (first + k - 1) * SPECTRAL_HOP + SPECTRAL_N <= buf.len(),
    ensures
        ({
            let f = first * SPECTRAL_HOP;
            let mid = overlapped(c, q, buf, acc, first);
            overlapped(c, q, buf, acc, first + k) == mid.take(f) + overlapped(
                c,
                q,
                buf.skip(f),
                mid.skip(f),
                k,
            )
        }),
    decreases k,
{
    let f = first * SPECTRAL_HOP;
    let mid = overlapped(c, q, buf, acc, first);
    lemma_overlapped_len(c, q, buf, acc, first);
    if k == 0 {
        assert(mid =~= mid.take(f) + mid.skip(f));
    } else {
        lemma_overlapped_shift(c, q, buf, acc, first, k - 1);
        let at = (first + k - 1) * SPECTRAL_HOP;
        let to = (k - 1) * SPECTRAL_HOP;
        assert(at == f + to);
        lemma_overlapped_len(c, q, buf.skip(f), mid.skip(f), k - 1);
        assert(buf.subrange(at, at + SPECTRAL_N) =~= buf.skip(f).subrange(to, to + SPECTRAL_N));
        let w = crunched(c, buf.subrange(at, at + SPECTRAL_N), q);
        lemma_crunched_len(c, buf.subrange(at, at + SPECTRAL_N), q);
        let b = overlapped(c, q, buf.skip(f), mid.skip(f), k - 1);
        assert(overlaid(c, mid.take(f) + b, w, at) =~= mid.take(f) + overlaid(c, b, w, to));
    }
}

/// Two blocks one after the other give what the one block made of both gives.
pub proof fn law_spectral_blocks_compose<K: Fn(Op, Width, u64, u64) -> u64>(c: &Calc<K>, q: F32, s: SpectralView, a: Seq<F32>, b: Seq<F32>)
    requires
        s.wf(),
    ensures
        ({
            let one = spectral_block(c, q, s, a);
            let two = spectral_block(c, q, one.0, b);
            spectral_block(c, q, s, a + b) == (two.0, one.1 + two.1)
        }),
{
    let one = spectral_block(c, q, s, a);
    let two = spectral_block(c, q, one.0, b);
    law_spectral_blocks_never_underrun(c, q, s, a);
    law_spectral_blocks_never_underrun(c, q, one.0, b);
    law_spectral_blocks_never_underrun(c, q, s, a + b);
    let buf1 = s.buf + a;
    let acc1 = s.acc + zeros(a.len());
    let k1 = windows_in(buf1.len() as int);
    let f1 = k1 * SPECTRAL_HOP;
    let sum1 = overlapped(c, q, buf1, acc1, k1);
    let buf2 = one.0.buf + b;
    let acc2 = one.0.acc + zeros(b.len());
    let k2 = windows_in(buf2.len() as int);
    let f2 = k2 * SPECTRAL_HOP;
    let sum2 = overlapped(c, q, buf2, acc2, k2);
    let buf = s.buf + (a + b);
    let acc = s.acc + zeros((a + b).len());
    let k = windows_in(buf.len() as int);
    let sum = overlapped(c, q, buf, acc, k);
    lemma_windows(buf1.len() as int);
    lemma_windows(buf2.len() as int);
    lemma_windows(buf.len() as int);
    lemma_overlapped_len(c, q, buf1, acc1, k1);
    lemma_overlapped_len(c, q, buf2, acc2, k2);
    lemma_overlapped_len(c, q, buf, acc, k);
    assert(buf2.len() == buf1.len() - f1 + b.len());
    assert(k == k1 + k2);
    assert(buf =~= buf1 + b);
    assert(acc =~= acc1 + zeros(b.len()));
    lemma_overlapped_prefix(c, q, buf1, acc1, b, zeros(b.len()), k1);
    let mid = sum1 + zeros(b.len());
    assert(overlapped(c, q, buf, acc, k1) == mid);
    assert(buf.skip(f1) =~= buf2);
    assert(mid.skip(f1) =~= acc2);
    lemma_overlapped_shift(c, q, buf, acc, k1, k2);
    assert(sum == mid.take(f1) + sum2);
    assert(mid.take(f1) =~= sum1.take(f1));
    let done = k * SPECTRAL_HOP;
    assert(done == f1 + f2);
    let all = spectral_block(c, q, s, a + b);
    assert(sum.take(done) =~= sum1.take(f1) + sum2.take(f2));
    assert(all.0.buf =~= two.0.buf);
    assert(all.0.acc =~= two.0.acc);
    assert(all.0.out =~= two.0.out);
    assert(all.1 =~= one.1 + two.1);
}

impl Default for SpectralState {
    fn default() -> (r: SpectralState)
        ensures
            r@ == fresh_spectral(),
    {
        SpectralState::new()
    }
}

impl SpectralState {
    pub fn new() -> (r: SpectralState)
        ensures
            r@ == fresh_spectral(),
            r@.wf(),
    {
        let mut out: VecDeque<F32> = VecDeque::new();
        let mut i: usize = 0;
        while i < SPECTRAL_N
            invariant
                i <= SPECTRAL_N,
                out@ =~= zeros(i as nat),
            decreases SPECTRAL_N - i,
        {
            out.push_back(single(0));
            i += 1;
        }
        SpectralState { buf: Vec::new(), acc: Vec::new(), out }
    }

    /// Process a block in place (output delayed by SPECTRAL_N samples).
    pub fn process<K: Fn(Op, Width, u64, u64) -> u64>(&mut self, c: &Calc<K>, samples: &mut Vec<F32>, quality: F32)
        requires
            c.sound(),
            old(self)@.wf(),
        ensures
            final(self)@.wf(),
            (final(self)@, final(samples)@) == spectral_block(
                c,
                quality.limit(single(0), single(0x3f80_0000)),
                old(self)@,
                old(samples)@,
            ),
    {
        let q: F32 = quality.limit(single(0), single(0x3f80_0000));
        let ghost first = self@;
        let ghost xs = samples@;
        proof {
            law_spectral_blocks_never_underrun(c, q, first, xs);
        }
        let n: usize = samples.len();
        let mut i: usize = 0;
        while i < n
            invariant
                i <= n,
                n == samples@.len(),
                samples@ == xs,
                self.out@ == first.out,
                self.buf@ =~= first.buf + xs.take(i as int),
                self.acc@ =~= first.acc + zeros(i as nat),
            decreases n - i,
        {
            self.buf.push(samples[i]);
            self.acc.push(single(0));
            i += 1;
        }
        let ghost buf = first.buf + xs;
        let ghost acc = first.acc + zeros(xs.len());
        assert(xs.take(n as int) =~= xs);
        assert(self.buf@ =~= buf);
        assert(self.acc@ =~= acc);
        let len: usize = self.buf.len();
        let ghost mut k: int = 0;
        let mut start: usize = 0;
        while len - start >= SPECTRAL_N
            invariant
                c.sound(),
                len == buf.len(),
                self.buf@ == buf,
                self.out@ == first.out,
                acc.len() == buf.len(),
                self.acc@.len() == len,
                start <= len,
                0 <= k,
                start == k * SPECTRAL_HOP,
                k > 0 ==> (k - 1) * SPECTRAL_HOP + SPECTRAL_N <= len,
                self.acc@ == overlapped(c, q, buf, acc, k),
            decreases len - start,
        {
            let w: Vec<F32> = crunch(c, &self.buf, start, q);
            let ghost before = self.acc@;
            let mut j: usize = 0;
            while j < SPECTRAL_N
                invariant
                    c.sound(),
                    j <= SPECTRAL_N,
                    w@.len() == SPECTRAL_N,
                    start + SPECTRAL_N <= len,
                    self.acc@.len() == len,
                    before.len() == len,
                    self.buf@ == buf,
                    self.out@ == first.out,
                    forall|p: int|
                        0 <= p < len ==> #[trigger] self.acc@[p] == if start <= p < start + j {
                            before[p].add(c, w@[p - start])
                        } else {
                            before[p]
                        },
                decreases SPECTRAL_N - j,
            {
                let v: F32 = self.acc[start + j].add(c, w[j]);
                self.acc.set(start + j, v);
                j += 1;
            }
            proof {
                k = k + 1;
                assert(self.acc@ =~= overlaid(c, before, w@, start as int));
            }
            start += SPECTRAL_HOP;
        }
        proof {
            lemma_windows(len as int);
            assert(k == windows_in(len as int));
        }
        let ghost sum = self.acc@;
        let mut m: usize = 0;
        while m < start
            invariant
                m <= start,
                start <= sum.len(),
                self.acc@ == sum,
                self.buf@ == buf,
                self.out@ =~= first.out + sum.take(m as int),
            decreases start - m,
        {
            self.out.push_back(self.acc[m]);
            m += 1;
        }
        let rest: Vec<F32> = self.buf.split_off(start);
        self.buf = rest;
        let tail: Vec<F32> = self.acc.split_off(start);
        self.acc = tail;
        let ghost out = self.out@;
        let mut t: usize = 0;
        while t < n
            invariant
                t <= n,
                n == samples@.len(),
                n <= out.len(),
                self.buf@ =~= buf.skip(start as int),
                self.acc@ =~= sum.skip(start as int),
                self.out@ =~= out.skip(t as int),
                samples@.take(t as int) =~= out.take(t as int),
            decreases n - t,
        {
            match self.out.pop_front() {
                Some(v) => {
                    samples.set(t, v);
                },
                None => {},
            }
            t += 1;
        }
        assert(samples@.take(n as int) =~= samples@);
    }
}

} // verus!
