//! Signal building blocks: filter descriptions, a small deterministic
//! generator of random numbers, and the search for a signal's period.
use crate::calc::{Calc, Op, Width};
use crate::num::{law_centred_is_exact, law_unit_is_exact, single, F32};
use crate::text;
use vstd::arithmetic::div_mod::{lemma_mod_multiples_vanish, lemma_mul_mod_noop_left, lemma_small_mod};
use vstd::prelude::*;

verus! {

#[derive(Clone, Copy, Debug, PartialEq, Eq, Structural)]
pub enum FilterKind {
    LowPass,
    HighPass,
    BandPass,
    Notch,
}

/// The filter a squashed name stands for.
pub open spec fn filter_named(n: Seq<char>) -> Option<FilterKind> {
    if n == "lowpass"@ || n == "lp"@ || n == "low"@ {
        Some(FilterKind::LowPass)
    } else if n == "highpass"@ || n == "hp"@ || n == "high"@ {
        Some(FilterKind::HighPass)
    } else if n == "bandpass"@ || n == "bp"@ || n == "band"@ {
        Some(FilterKind::BandPass)
    } else if n == "notch"@ || n == "bandreject"@ || n == "br"@ {
        Some(FilterKind::Notch)
    } else {
        None
    }
}

impl FilterKind {
    /// The filter of that name; case, blanks, hyphens and underscores do not matter.
    pub fn parse(name: &str) -> (r: Option<FilterKind>)
        ensures
            r == filter_named(text::squashed(name@)),
    {
        let n: Vec<char> = text::squash(name);
        if text::spells(&n, "lowpass") || text::spells(&n, "lp") || text::spells(&n, "low") {
            Some(FilterKind::LowPass)
        } else if text::spells(&n, "highpass") || text::spells(&n, "hp") || text::spells(
            &n,
            "high",
        ) {
            Some(FilterKind::HighPass)
        } else if text::spells(&n, "bandpass") || text::spells(&n, "bp") || text::spells(
            &n,
            "band",
        ) {
            Some(FilterKind::BandPass)
        } else if text::spells(&n, "notch") || text::spells(&n, "bandreject") || text::spells(
            &n,
            "br",
        ) {
            Some(FilterKind::Notch)
        } else {
            None
        }
    }
}

/// A filter stage in a clip's audio chain.
#[derive(Clone, Copy, Debug, PartialEq)]
pub struct FilterSpec {
    pub kind: FilterKind,
    pub freq: F32,
    pub q: F32,
}

/// The generator's state after one draw.
pub open spec fn stirred(x: u64) -> u64 {
    let a = x ^ (x >> 12u64);
    let b = a ^ (a << 25u64);
    b ^ (b >> 27u64)
}

/// The generator's state after `n` draws.
pub open spec fn stirred_by(x: u64, n: nat) -> u64
    decreases n,
{
    if n == 0 {
        x
    } else {
        stirred(stirred_by(x, (n - 1) as nat))
    }
}

/// The 64 bits drawn from a state.
pub open spec fn drawn(x: u64) -> u64 {
    stirred(x).wrapping_mul(0x2545F4914F6CDD1D)
}

/// The upper 24 bits drawn from a state.
pub open spec fn drawn24(x: u64) -> u64 {
    drawn(x) >> 40u64
}

/// A number of [0, 1) drawn from a state.
pub open spec fn drawn_unit(x: u64) -> F32 {
    F32::unit(drawn24(x) as int)
}

/// A number of [-1, 1) drawn from a state.
pub open spec fn drawn_centred(x: u64) -> F32 {
    F32::centred(drawn24(x) as int)
}

/// The state that a seed starts.
pub open spec fn seeded(seed: u64) -> u64 {
    let x = seed.wrapping_mul(0x9E3779B97F4A7C15);
    if x < 1 {
        1
    } else {
        x
    }
}

/// Small deterministic xorshift* generator so renders are reproducible.
#[derive(Debug)]
pub struct Rng {
    state: u64,
}

impl Clone for Rng {
    fn clone(&self) -> (r: Rng)
        ensures
            r@ == self@,
    {
        Rng { state: self.state }
    }
}

impl View for Rng {
    type V = u64;

    closed spec fn view(&self) -> u64 {
        self.state
    }
}

impl Rng {
    pub fn new(seed: u64) -> (r: Rng)
        ensures
            r@ == seeded(seed),
            r@ != 0,
    {
        let x: u64 = seed.wrapping_mul(0x9E3779B97F4A7C15);
        Rng { state: if x < 1 { 1 } else { x } }
    }

    pub fn next_u64(&mut self) -> (r: u64)
        ensures
            final(self)@ == stirred(old(self)@),
            r == drawn(old(self)@),
    {
        let mut x: u64 = self.state;
        x = x ^ (x >> 12u64);
        x = x ^ (x << 25u64);
        x = x ^ (x >> 27u64);
        self.state = x;
        x.wrapping_mul(0x2545F4914F6CDD1D)
    }

    fn next_24(&mut self) -> (r: u32)
        ensures
            final(self)@ == stirred(old(self)@),
            r == drawn24(old(self)@),
            r < 0x100_0000,
    {
        let x: u64 = self.next_u64();
        assert(x >> 40u64 < 0x100_0000) by (bit_vector);
        (x >> 40u64) as u32
    }

    /// Uniform in [0, 1).
    pub fn next_f32(&mut self) -> (r: F32)
        ensures
            final(self)@ == stirred(old(self)@),
            r == drawn_unit(old(self)@),
    {
        let m: u32 = self.next_24();
        F32::from_unit(m)
    }

    /// Uniform in [a, b).
    pub fn range<K: Fn(Op, Width, u64, u64) -> u64>(&mut self, c: &Calc<K>, a: F32, b: F32) -> (r: F32)
        requires
            c.sound(),
        ensures
            final(self)@ == stirred(old(self)@),
            r == a.add(c, b.sub(c, a).mul(c, drawn_unit(old(self)@))),
    {
        let u: F32 = self.next_f32();
        a.add(c, b.sub(c, a).mul(c, u))
    }

    /// Uniform in [-1, 1).
    pub fn bipolar(&mut self) -> (r: F32)
        ensures
            final(self)@ == stirred(old(self)@),
            r == drawn_centred(old(self)@),
    {
        let m: u32 = self.next_24();
        F32::from_centred(m)
    }
}

/// Every number drawn by `next_f32` lies in [0, 1).
pub proof fn law_unit_draws_stay_in_range(x: u64)
    ensures
        single(0).at_most(drawn_unit(x)),
        drawn_unit(x).below(single(0x3f80_0000)),
{
    let d = drawn(x);
    assert(d >> 40u64 < 0x100_0000) by (bit_vector);
    law_unit_is_exact(drawn24(x) as int);
}

/// Every number drawn by `bipolar` lies in [-1, 1).
pub proof fn law_centred_draws_stay_in_range(x: u64)
    ensures
        single(0xbf80_0000).at_most(drawn_centred(x)),
        drawn_centred(x).below(single(0x3f80_0000)),
{
    let d = drawn(x);
    assert(d >> 40u64 < 0x100_0000) by (bit_vector);
    law_centred_is_exact(drawn24(x) as int);
}

/// No seed and no number of draws leads to the state zero, from which the
/// generator could not move.
pub proof fn law_generator_never_stalls(seed: u64, n: nat)
    ensures
        stirred_by(seeded(seed), n) != 0,
    decreases n,
{
    if n > 0 {
        law_generator_never_stalls(seed, (n - 1) as nat);
        let x = stirred_by(seeded(seed), (n - 1) as nat);
        assert(x != 0 ==> {
            let a = x ^ (x >> 12u64);
            let b = a ^ (a << 25u64);
            b ^ (b >> 27u64) != 0
        }) by (bit_vector);
    }
}

/// Multiplying by a number that has an inverse loses nothing.
proof fn lemma_multiplied_apart(a: u64, b: u64, k: u64, inverse: u64, rounds: int)
    requires
        k * inverse == 1 + 0x1_0000_0000_0000_0000 * rounds,
        a.wrapping_mul(k) == b.wrapping_mul(k),
    ensures
        a == b,
{
    let m: int = 0x1_0000_0000_0000_0000;
    assert forall|x: u64| (x.wrapping_mul(k) * inverse) % m == x by {
        lemma_mul_mod_noop_left(x * k, inverse as int, m);
        assert((x * k) * inverse == m * (rounds * x) + x) by (nonlinear_arith)
            requires
                k * inverse == 1 + m * rounds,
        ;
        lemma_mod_multiples_vanish(rounds * x, x as int, m);
        lemma_small_mod(x as nat, m as nat);
    }
    assert((a.wrapping_mul(k) * inverse) % m == a);
    assert((b.wrapping_mul(k) * inverse) % m == b);
}

/// Two states that differ still differ after a draw.
proof fn lemma_stirred_apart(x: u64, y: u64)
    requires
        x != y,
    ensures
        stirred(x) != stirred(y),
{
    assert(x != y ==> x ^ (x >> 12u64) != y ^ (y >> 12u64)) by (bit_vector);
    let a = x ^ (x >> 12u64);
    let b = y ^ (y >> 12u64);
    assert(a != b ==> a ^ (a << 25u64) != b ^ (b << 25u64)) by (bit_vector);
    let d = a ^ (a << 25u64);
    let e = b ^ (b << 25u64);
    assert(d != e ==> d ^ (d >> 27u64) != e ^ (e >> 27u64)) by (bit_vector);
}

/// Two seeds that differ, neither of them zero, never draw alike: after any number of
/// draws the generators' next 64 bits differ.
pub proof fn law_seeds_draw_apart(a: u64, b: u64, n: nat)
    requires
        a != b,
        a != 0,
        b != 0,
    ensures
        stirred_by(seeded(a), n) != stirred_by(seeded(b), n),
        drawn(stirred_by(seeded(a), n)) != drawn(stirred_by(seeded(b), n)),
    decreases n,
{
    if n == 0 {
        let k: u64 = 0x9E3779B97F4A7C15;
        let inverse: u64 = 0xf1de83e19937733d;
        let zero: u64 = 0;
        if a.wrapping_mul(k) == b.wrapping_mul(k) {
            lemma_multiplied_apart(a, b, k, inverse, 0x957bbf35006ed677);
        }
        if a.wrapping_mul(k) == zero.wrapping_mul(k) {
            lemma_multiplied_apart(a, zero, k, inverse, 0x957bbf35006ed677);
        }
        if b.wrapping_mul(k) == zero.wrapping_mul(k) {
            lemma_multiplied_apart(b, zero, k, inverse, 0x957bbf35006ed677);
        }
        assert(zero.wrapping_mul(k) == 0);
    } else {
        law_seeds_draw_apart(a, b, (n - 1) as nat);
        lemma_stirred_apart(stirred_by(seeded(a), (n - 1) as nat), stirred_by(seeded(b), (n - 1) as nat));
    }
    let x = stirred_by(seeded(a), n);
    let y = stirred_by(seeded(b), n);
    lemma_stirred_apart(x, y);
    if drawn(x) == drawn(y) {
        lemma_multiplied_apart(stirred(x), stirred(y), 0x2545F4914F6CDD1D, 0x59071d96d81ecd35, 0xcf65b3f17bf4a6b);
    }
}

/// No 64 bits that are drawn are all zero.
pub proof fn law_draws_are_never_zero(seed: u64, n: nat)
    ensures
        drawn(stirred_by(seeded(seed), n)) != 0,
{
    let x = stirred_by(seeded(seed), n);
    let zero: u64 = 0;
    law_generator_never_stalls(seed, n);
    lemma_stirred_apart(x, zero);
    assert(stirred(0) == 0) by {
        assert(({
            let a = 0u64 ^ (0u64 >> 12u64);
            let b = a ^ (a << 25u64);
            b ^ (b >> 27u64)
        }) == 0) by (bit_vector);
    }
    assert(zero.wrapping_mul(0x2545F4914F6CDD1D) == 0);
    if drawn(x) == 0 {
        lemma_multiplied_apart(stirred(x), zero, 0x2545F4914F6CDD1D, 0x59071d96d81ecd35, 0xcf65b3f17bf4a6b);
    }
}

/// Direct form 1 biquad, RBJ cookbook coefficients.
#[derive(Clone, Copy, Debug)]
pub struct Biquad {
    pub b0: F32,
    pub b1: F32,
    pub b2: F32,
    pub a1: F32,
    pub a2: F32,
    pub x1: F32,
    pub x2: F32,
    pub y1: F32,
    pub y2: F32,
}

/// The cookbook's coefficients before they are scaled: b0, b1, b2, a0, a1, a2.
pub open spec fn cookbook<K: Fn(Op, Width, u64, u64) -> u64>(c: &Calc<K>, kind: FilterKind, cos_w0: F32, alpha: F32) -> (F32, F32, F32, F32, F32, F32) {
    let a0 = single(0x3f80_0000).add(c, alpha);
    let a1 = single(0xc000_0000).mul(c, cos_w0);
    let a2 = single(0x3f80_0000).sub(c, alpha);
    match kind {
        FilterKind::LowPass => {
            let b1 = single(0x3f80_0000).sub(c, cos_w0);
            (b1.div(c, single(0x4000_0000)), b1, b1.div(c, single(0x4000_0000)), a0, a1, a2)
        },
        FilterKind::HighPass => {
            let s = single(0x3f80_0000).add(c, cos_w0);
            (s.div(c, single(0x4000_0000)), s.minus(), s.div(c, single(0x4000_0000)), a0, a1, a2)
        },
        FilterKind::BandPass => (alpha, single(0), alpha.minus(), a0, a1, a2),
        FilterKind::Notch => (single(0x3f80_0000), single(0xc000_0000).mul(c, cos_w0), single(0x3f80_0000), a0, a1, a2),
    }
}

/// The angle of a filter's frequency, which is kept within 10 Hz and 0.49 of the rate.
#[verifier::allow_in_spec]
pub fn filter_angle<K: Fn(Op, Width, u64, u64) -> u64>(c: &Calc<K>, sample_rate: F32, freq: F32) -> F32
    requires
        c.sound(),
    returns
        (single(0x40c9_0fdb).mul(c, freq.limit(single(0x4120_0000), sample_rate.mul(c, single(0x3efa_e148)))).div(c, sample_rate)),
{
    single(0x40c9_0fdb).mul(c, freq.limit(single(0x4120_0000), sample_rate.mul(c, single(0x3efa_e148)))).div(c, sample_rate)
}

impl Biquad {
    /// The biquad of these coefficients, at rest.
    pub open spec fn scaled<K: Fn(Op, Width, u64, u64) -> u64>(c: &Calc<K>, k: (F32, F32, F32, F32, F32, F32)) -> Biquad {
        let (b0, b1, b2, a0, a1, a2) = k;
        Biquad {
            b0: b0.div(c, a0),
            b1: b1.div(c, a0),
            b2: b2.div(c, a0),
            a1: a1.div(c, a0),
            a2: a2.div(c, a0),
            x1: single(0),
            x2: single(0),
            y1: single(0),
            y2: single(0),
        }
    }

    /// The filter of that kind, frequency and quality (at least 0.05).
    pub open spec fn designed<K: Fn(Op, Width, u64, u64) -> u64>(c: &Calc<K>, kind: FilterKind, sample_rate: F32, freq: F32, q: F32) -> Biquad {
        let w0 = filter_angle(c, sample_rate, freq);
        Biquad::scaled(
            c,
            cookbook(c, kind, w0.cos(c), w0.sin(c).div(c, single(0x4000_0000).mul(c, q.max(single(0x3d4c_cccd))))),
        )
    }

    pub fn new<K: Fn(Op, Width, u64, u64) -> u64>(c: &Calc<K>, kind: FilterKind, sample_rate: F32, freq: F32, q: F32) -> (r: Biquad)
        requires
            c.sound(),
        ensures
            r == Biquad::designed(c, kind, sample_rate, freq, q),
    {
        let w0: F32 = filter_angle(c, sample_rate, freq);
        let cos_w0: F32 = w0.cos(c);
        let alpha: F32 = w0.sin(c).div(c, single(0x4000_0000).mul(c, q.max(single(0x3d4c_cccd))));
        let a0: F32 = single(0x3f80_0000).add(c, alpha);
        let a1: F32 = single(0xc000_0000).mul(c, cos_w0);
        let a2: F32 = single(0x3f80_0000).sub(c, alpha);
        let (b0, b1, b2): (F32, F32, F32) = match kind {
            FilterKind::LowPass => {
                let b1: F32 = single(0x3f80_0000).sub(c, cos_w0);
                (b1.div(c, single(0x4000_0000)), b1, b1.div(c, single(0x4000_0000)))
            },
            FilterKind::HighPass => {
                let s: F32 = single(0x3f80_0000).add(c, cos_w0);
                (s.div(c, single(0x4000_0000)), s.minus(), s.div(c, single(0x4000_0000)))
            },
            FilterKind::BandPass => (alpha, single(0), alpha.minus()),
            FilterKind::Notch => (single(0x3f80_0000), single(0xc000_0000).mul(c, cos_w0), single(0x3f80_0000)),
        };
        Biquad {
            b0: b0.div(c, a0),
            b1: b1.div(c, a0),
            b2: b2.div(c, a0),
            a1: a1.div(c, a0),
            a2: a2.div(c, a0),
            x1: single(0),
            x2: single(0),
            y1: single(0),
            y2: single(0),
        }
    }

    pub fn from_spec<K: Fn(Op, Width, u64, u64) -> u64>(c: &Calc<K>, spec: &FilterSpec, sample_rate: F32) -> (r: Biquad)
        requires
            c.sound(),
        ensures
            r == Biquad::designed(c, spec.kind, sample_rate, spec.freq, spec.q),
    {
        Biquad::new(c, spec.kind, sample_rate, spec.freq, spec.q)
    }

    /// What the filter gives for sample `x`.
    pub open spec fn output<K: Fn(Op, Width, u64, u64) -> u64>(self, c: &Calc<K>, x: F32) -> F32 {
        self.b0.mul(c, x).add(c, self.b1.mul(c, self.x1)).add(c, self.b2.mul(c, self.x2)).sub(
            c,
            self.a1.mul(c, self.y1),
        ).sub(c, self.a2.mul(c, self.y2))
    }

    /// The filter after sample `x`.
    pub open spec fn after<K: Fn(Op, Width, u64, u64) -> u64>(self, c: &Calc<K>, x: F32) -> Biquad {
        Biquad { x2: self.x1, x1: x, y2: self.y1, y1: self.output(c, x), ..self }
    }

    /// The filter after a run of samples.
    pub open spec fn after_all<K: Fn(Op, Width, u64, u64) -> u64>(self, c: &Calc<K>, xs: Seq<F32>) -> Biquad
        decreases xs.len(),
    {
        if xs.len() == 0 {
            self
        } else {
            self.after_all(c, xs.drop_last()).after(c, xs.last())
        }
    }

    /// What the filter makes of a run of samples.
    pub open spec fn outputs<K: Fn(Op, Width, u64, u64) -> u64>(self, c: &Calc<K>, xs: Seq<F32>) -> Seq<F32> {
        Seq::new(xs.len(), |i: int| self.after_all(c, xs.take(i)).output(c, xs[i]))
    }

    pub fn process<K: Fn(Op, Width, u64, u64) -> u64>(&mut self, c: &Calc<K>, x: F32) -> (r: F32)
        requires
            c.sound(),
        ensures
            r == old(self).output(c, x),
            *final(self) == old(self).after(c, x),
    {
        let y: F32 = self.b0.mul(c, x).add(c, self.b1.mul(c, self.x1)).add(
            c,
            self.b2.mul(c, self.x2),
        ).sub(c, self.a1.mul(c, self.y1)).sub(c, self.a2.mul(c, self.y2));
        self.x2 = self.x1;
        self.x1 = x;
        self.y2 = self.y1;
        self.y1 = y;
        y
    }

    pub fn process_buffer<K: Fn(Op, Width, u64, u64) -> u64>(&mut self, c: &Calc<K>, buf: &mut Vec<F32>)
        requires
            c.sound(),
        ensures
            final(buf)@ == old(self).outputs(c, old(buf)@),
            *final(self) == old(self).after_all(c, old(buf)@),
    {
        let ghost start = *self;
        let ghost xs = buf@;
        let mut i: usize = 0;
        while i < buf.len()
            invariant
                c.sound(),
                i <= buf@.len(),
                buf@.len() == xs.len(),
                *self == start.after_all(c, xs.take(i as int)),
                forall|j: int| 0 <= j < i ==> buf@[j] == start.outputs(c, xs)[j],
                forall|j: int| i <= j < xs.len() ==> buf@[j] == xs[j],
            decreases buf.len() - i,
        {
            let x: F32 = buf[i];
            let y: F32 = self.process(c, x);
            buf[i] = y;
            assert(xs.take(i + 1).drop_last() =~= xs.take(i as int));
            i += 1;
        }
        assert(xs.take(i as int) =~= xs);
        assert(buf@ =~= start.outputs(c, xs));
    }

    /// A filter streams: a run in two pieces comes out as the whole run would.
    pub proof fn law_filtering_streams<K: Fn(Op, Width, u64, u64) -> u64>(self, c: &Calc<K>, a: Seq<F32>, b: Seq<F32>)
        ensures
            self.after_all(c, a + b) == self.after_all(c, a).after_all(c, b),
            self.outputs(c, a + b) == self.outputs(c, a) + self.after_all(c, a).outputs(c, b),
        decreases b.len(),
    {
        self.lemma_after_all_splits(c, a, b);
        let whole = self.outputs(c, a + b);
        let parts = self.outputs(c, a) + self.after_all(c, a).outputs(c, b);
        assert forall|i: int| 0 <= i < whole.len() implies whole[i] == parts[i] by {
            if i < a.len() {
                assert((a + b).take(i) =~= a.take(i));
            } else {
                assert((a + b).take(i) =~= a + b.take(i - a.len()));
                self.lemma_after_all_splits(c, a, b.take(i - a.len()));
            }
        }
        assert(whole =~= parts);
    }

    proof fn lemma_after_all_splits<K: Fn(Op, Width, u64, u64) -> u64>(self, c: &Calc<K>, a: Seq<F32>, b: Seq<F32>)
        ensures
            self.after_all(c, a + b) == self.after_all(c, a).after_all(c, b),
        decreases b.len(),
    {
        if b.len() == 0 {
            assert(a + b =~= a);
        } else {
            assert((a + b).drop_last() =~= a + b.drop_last());
            self.lemma_after_all_splits(c, a, b.drop_last());
        }
    }
}

/// Samples after a chain of filters, in order.
pub open spec fn chain_filtered<K: Fn(Op, Width, u64, u64) -> u64>(c: &Calc<K>, samples: Seq<F32>, chain: Seq<FilterSpec>, sample_rate: F32) -> Seq<F32>
    decreases chain.len(),
{
    if chain.len() == 0 {
        samples
    } else {
        let f = chain.last();
        Biquad::designed(c, f.kind, sample_rate, f.freq, f.q).outputs(
            c,
            chain_filtered(c, samples, chain.drop_last(), sample_rate),
        )
    }
}

/// Apply a chain of filters to a buffer, in order.
pub fn apply_filter_chain<K: Fn(Op, Width, u64, u64) -> u64>(c: &Calc<K>, samples: &mut Vec<F32>, chain: &Vec<FilterSpec>, sample_rate: F32)
    requires
        c.sound(),
    ensures
        final(samples)@ == chain_filtered(c, old(samples)@, chain@, sample_rate),
{
    let ghost xs = samples@;
    let mut i: usize = 0;
    while i < chain.len()
        invariant
            c.sound(),
            i <= chain@.len(),
            samples@ == chain_filtered(c, xs, chain@.take(i as int), sample_rate),
        decreases chain.len() - i,
    {
        let mut bq: Biquad = Biquad::from_spec(c, &chain[i], sample_rate);
        bq.process_buffer(c, samples);
        assert(chain@.take(i + 1).drop_last() =~= chain@.take(i as int));
        i += 1;
    }
    assert(chain@.take(i as int) =~= chain@);
}

/// Tukey (tapered cosine) grain envelope.
///
/// `phase` in [0, 1]; `shape` in (0, 1]: fraction of the grain spent in fade-in +
/// fade-out. shape = 1 gives a full Hann window; small shapes give a rectangular
/// window with short ramps.
#[verifier::allow_in_spec]
pub fn grain_env<K: Fn(Op, Width, u64, u64) -> u64>(c: &Calc<K>, phase: F32, shape: F32) -> F32
    requires
        c.sound(),
    returns
        (grain_env_skewed(c, phase, shape, single(0))),
{
    grain_env_skewed(c, phase, shape, single(0))
}

/// The part of a grain that fades, for a shape and a skew (`one` plus or minus it).
#[verifier::allow_in_spec]
pub fn fade_part<K: Fn(Op, Width, u64, u64) -> u64>(c: &Calc<K>, shape: F32, leaning: F32) -> F32
    requires
        c.sound(),
    returns
        (shape.clamp(single(0x3c23_d70a), single(0x3f80_0000)).mul(c, leaning).div(c, single(0x4000_0000)).max(single(0x3b03_126f))),
{
    shape.clamp(single(0x3c23_d70a), single(0x3f80_0000)).mul(c, leaning).div(c, single(0x4000_0000)).max(single(0x3b03_126f))
}

/// Skewed tukey grain envelope: `skew` in [-1, 1] shifts the fade budget between
/// attack and release. -1 = instant attack, all release (percussive); 0 =
/// symmetric; +1 = all attack, instant release (reverse-decay swell).
#[verifier::allow_in_spec]
pub fn grain_env_skewed<K: Fn(Op, Width, u64, u64) -> u64>(c: &Calc<K>, phase: F32, shape: F32, skew: F32) -> F32
    requires
        c.sound(),
    returns
        (env_value(
            c,
            phase.clamp(single(0), single(0x3f80_0000)),
            fade_part(c, shape, single(0x3f80_0000).add(c, skew.clamp(single(0xbf80_0000), single(0x3f80_0000)))),
            fade_part(c, shape, single(0x3f80_0000).sub(c, skew.clamp(single(0xbf80_0000), single(0x3f80_0000)))),
        )),
{
    env_value(
        c,
        phase.clamp(single(0), single(0x3f80_0000)),
        fade_part(c, shape, single(0x3f80_0000).add(c, skew.clamp(single(0xbf80_0000), single(0x3f80_0000)))),
        fade_part(c, shape, single(0x3f80_0000).sub(c, skew.clamp(single(0xbf80_0000), single(0x3f80_0000)))),
    )
}

/// The envelope's value: a rise over `attack`, one in between, a fall over `release`.
#[verifier::allow_in_spec]
pub fn env_value<K: Fn(Op, Width, u64, u64) -> u64>(c: &Calc<K>, phase: F32, attack: F32, release: F32) -> F32
    requires
        c.sound(),
    returns
        (if phase.lt(attack) {
            single(0x3f00_0000).mul(c, single(0x3f80_0000).add(c, single(0x4049_0fdb).mul(c, phase.div(c, attack).sub(c, single(0x3f80_0000))).cos(c)))
        } else if single(0x3f80_0000).sub(c, release).lt(phase) {
            single(0x3f00_0000).mul(
                c,
                single(0x3f80_0000).add(
                    c,
                    single(0x4049_0fdb).mul(c, phase.sub(c, single(0x3f80_0000)).add(c, release).div(c, release)).cos(c),
                ),
            )
        } else {
            single(0x3f80_0000)
        }),
{
    if phase.lt(attack) {
        single(0x3f00_0000).mul(c, single(0x3f80_0000).add(c, single(0x4049_0fdb).mul(c, phase.div(c, attack).sub(c, single(0x3f80_0000))).cos(c)))
    } else if single(0x3f80_0000).sub(c, release).lt(phase) {
        single(0x3f00_0000).mul(
            c,
            single(0x3f80_0000).add(
                c,
                single(0x4049_0fdb).mul(c, phase.sub(c, single(0x3f80_0000)).add(c, release).div(c, release)).cos(c),
            ),
        )
    } else {
        single(0x3f80_0000)
    }
}

/// The sum of `x[i] * x[i + lag]` over the first `n` samples.
pub open spec fn lagged_sum<K: Fn(Op, Width, u64, u64) -> u64>(c: &Calc<K>, x: Seq<F32>, lag: int, n: int) -> F32
    decreases n,
{
    if n <= 0 {
        single(0)
    } else {
        lagged_sum(c, x, lag, n - 1).add(c, x[n - 1].mul(c, x[n - 1 + lag]))
    }
}

/// The sum of `x[i]` squared over `n` samples from `from` on.
pub open spec fn square_sum<K: Fn(Op, Width, u64, u64) -> u64>(c: &Calc<K>, x: Seq<F32>, from: int, n: int) -> F32
    decreases n,
{
    if n <= 0 {
        single(0)
    } else {
        square_sum(c, x, from, n - 1).add(c, x[from + n - 1].mul(c, x[from + n - 1]))
    }
}

fn sum_lagged<K: Fn(Op, Width, u64, u64) -> u64>(c: &Calc<K>, x: &Vec<F32>, base: usize, lag: usize, n: usize) -> (r: F32)
    requires
        c.sound(),
        base + n + lag <= x@.len(),
    ensures
        r == lagged_sum(c, x@.skip(base as int), lag as int, n as int),
{
    let mut s: F32 = single(0);
    let mut i: usize = 0;
    while i < n
        invariant
            c.sound(),
            i <= n,
            base + n + lag <= x.len(),
            s == lagged_sum(c, x@.skip(base as int), lag as int, i as int),
        decreases n - i,
    {
        s = s.add(c, x[base + i].mul(c, x[base + i + lag]));
        i += 1;
    }
    s
}

fn sum_squares<K: Fn(Op, Width, u64, u64) -> u64>(c: &Calc<K>, x: &Vec<F32>, base: usize, from: usize, n: usize) -> (r: F32)
    requires
        c.sound(),
        base + from + n <= x@.len(),
    ensures
        r == square_sum(c, x@.skip(base as int), from as int, n as int),
{
    let mut s: F32 = single(0);
    let mut i: usize = 0;
    while i < n
        invariant
            c.sound(),
            i <= n,
            base + from + n <= x.len(),
            s == square_sum(c, x@.skip(base as int), from as int, i as int),
        decreases n - i,
    {
        let v: F32 = x[base + from + i];
        s = s.add(c, v.mul(c, v));
        i += 1;
    }
    s
}

/// The normalized correlation at a lag; zero where there is no energy to
/// normalize by.
pub open spec fn correlation<K: Fn(Op, Width, u64, u64) -> u64>(c: &Calc<K>, x: Seq<F32>, win: int, energy: F32, lag: int) -> F32 {
    let norm = energy.mul(c, square_sum(c, x, lag, win)).sqrt(c);
    if norm.le(single(0)) {
        single(0)
    } else {
        lagged_sum(c, x, lag, win).div(c, norm)
    }
}

/// The greatest correlation of the lags `min..max`, at least zero.
pub open spec fn best_correlation<K: Fn(Op, Width, u64, u64) -> u64>(c: &Calc<K>, x: Seq<F32>, win: int, energy: F32, min: int, max: int) -> F32
    decreases max - min,
{
    if max <= min {
        single(0)
    } else {
        let b = best_correlation(c, x, win, energy, min, max - 1);
        let v = correlation(c, x, win, energy, max - 1);
        if b.lt(v) {
            v
        } else {
            b
        }
    }
}

/// The first index from `i` on whose value is at least `threshold`; the length when none is.
pub open spec fn first_at_least(v: Seq<F32>, threshold: F32, i: int) -> int
    decreases v.len() - i,
{
    if i >= v.len() || threshold.le(v[i]) {
        i
    } else {
        first_at_least(v, threshold, i + 1)
    }
}

/// The local peak reached by climbing from index `i`.
pub open spec fn climbed(v: Seq<F32>, i: int) -> int
    decreases v.len() - i,
{
    if i + 1 < v.len() && v[i].lt(v[i + 1]) {
        climbed(v, i + 1)
    } else {
        i
    }
}

/// The lag of the period among `min..=max`, from the lags' correlations: any
/// multiple of the true period correlates as well as the period itself, so the
/// smallest lag near the maximum is taken, then its local peak. `None` when the
/// maximum is below one half.
pub open spec fn period<K: Fn(Op, Width, u64, u64) -> u64>(c: &Calc<K>, corrs: Seq<F32>, best: F32, min: int) -> Option<int> {
    if best.lt(single(0x3f00_0000)) {
        None
    } else {
        let i = first_at_least(corrs, best.sub(c, single(0x3ca3_d70a)), 0);
        if i >= corrs.len() {
            None
        } else {
            Some(min + climbed(corrs, i))
        }
    }
}

/// The period between whole lags, by a parabola through the neighbours' correlations.
pub open spec fn refined<K: Fn(Op, Width, u64, u64) -> u64>(c: &Calc<K>, x: Seq<F32>, win: int, lag: int, min: int, max: int) -> F32 {
    let whole = F32::of_count(c, lag as u64);
    if min < lag < max {
        let c0 = lagged_sum(c, x, lag - 1, win);
        let c1 = lagged_sum(c, x, lag, win);
        let c2 = lagged_sum(c, x, lag + 1, win);
        let denom = c0.sub(c, single(0x4000_0000).mul(c, c1)).add(c, c2);
        if single(0x3089_705f).lt(denom.abs()) {
            whole.add(c, single(0x3f00_0000).mul(c, c0.sub(c, c2)).div(c, denom))
        } else {
            whole
        }
    } else {
        whole
    }
}

/// The window and the lags to try for a sample rate: a quarter of a second, and
/// from 1200 Hz down to 50 Hz.
pub open spec fn pitch_lags<K: Fn(Op, Width, u64, u64) -> u64>(c: &Calc<K>, sr: F32) -> (usize, usize, usize) {
    (
        sr.mul(c, single(0x3e80_0000)).to_size(c),
        sr.div(c, single(0x4496_0000)).max(single(0x4000_0000)).to_size(c),
        sr.div(c, single(0x4248_0000)).to_size(c),
    )
}

/// The fundamental of a signal: see `detect_pitch`.
pub open spec fn pitch<K: Fn(Op, Width, u64, u64) -> u64>(c: &Calc<K>, samples: Seq<F32>, sample_rate: u32) -> Option<F32> {
    let sr = F32::of_count(c, sample_rate as u64);
    let (win, min, max) = pitch_lags(c, sr);
    if samples.len() < win + max + 1 || min >= max {
        None
    } else {
        let x = samples.skip((samples.len() - win - max) / 2);
        let energy = square_sum(c, x, 0, win as int);
        if energy.lt(single(0x3586_37bd)) {
            None
        } else {
            let corrs = Seq::new(
                (max - min + 1) as nat,
                |k: int| correlation(c, x, win as int, energy, min + k),
            );
            let best = best_correlation(c, x, win as int, energy, min as int, max + 1);
            match period(c, corrs, best, min as int) {
                Some(lag) => Some(
                    sr.div(c, refined(c, x, win as int, lag, min as int, max as int)),
                ),
                None => None,
            }
        }
    }
}

proof fn lemma_climbed(v: Seq<F32>, i: int)
    requires
        0 <= i < v.len(),
    ensures
        i <= climbed(v, i) < v.len(),
    decreases v.len() - i,
{
    if i + 1 < v.len() && v[i].lt(v[i + 1]) {
        lemma_climbed(v, i + 1);
    }
}

/// Estimate the fundamental frequency of a buffer via normalized
/// autocorrelation of up to ~0.75 s from its middle. `None` when the signal is
/// too short, too quiet or aperiodic.
pub fn detect_pitch<K: Fn(Op, Width, u64, u64) -> u64>(c: &Calc<K>, samples: &Vec<F32>, sample_rate: u32) -> (r: Option<F32>)
    requires
        c.sound(),
    ensures
        r == pitch(c, samples@, sample_rate),
{
    let sr: F32 = F32::of_count(c, sample_rate as u64);
    let win: usize = sr.mul(c, single(0x3e80_0000)).to_size(c);
    let max: usize = sr.div(c, single(0x4248_0000)).to_size(c);
    let min: usize = sr.div(c, single(0x4496_0000)).max(single(0x4000_0000)).to_size(c);
    let len: usize = samples.len();
    if min >= max || len <= win || len - win <= max {
        return None;
    }
    let start: usize = (len - win - max) / 2;
    let ghost x = samples@.skip(start as int);
    let energy: F32 = sum_squares(c, samples, start, 0, win);
    if energy.lt(single(0x3586_37bd)) {
        return None;
    }
    let mut corrs: Vec<F32> = Vec::new();
    let mut best: F32 = single(0);
    let mut lag: usize = min;
    while lag <= max
        invariant
            c.sound(),
            min <= lag <= max + 1,
            max < len,
            start + win + max <= len,
            len == samples.len(),
            x == samples@.skip(start as int),
            corrs@ =~= Seq::new(
                (lag - min) as nat,
                |k: int| correlation(c, x, win as int, energy, min + k),
            ),
            best == best_correlation(c, x, win as int, energy, min as int, lag as int),
        decreases max + 1 - lag,
    {
        let e2: F32 = sum_squares(c, samples, start, lag, win);
        let norm: F32 = energy.mul(c, e2).sqrt(c);
        let v: F32 = if norm.le(single(0)) {
            single(0)
        } else {
            sum_lagged(c, samples, start, lag, win).div(c, norm)
        };
        corrs.push(v);
        if best.lt(v) {
            best = v;
        }
        lag += 1;
    }
    assert(corrs@ =~= Seq::new(
        (max - min + 1) as nat,
        |k: int| correlation(c, x, win as int, energy, min + k),
    ));
    if best.lt(single(0x3f00_0000)) {
        return None;
    }
    let threshold: F32 = best.sub(c, single(0x3ca3_d70a));
    let n: usize = corrs.len();
    let mut i: usize = 0;
    while i < n && !threshold.le(corrs[i])
        invariant
            i <= n,
            n == corrs.len(),
            first_at_least(corrs@, threshold, 0) == first_at_least(corrs@, threshold, i as int),
        decreases n - i,
    {
        i += 1;
    }
    if i >= n {
        return None;
    }
    proof {
        lemma_climbed(corrs@, i as int);
    }
    let ghost first = i as int;
    while i + 1 < n && corrs[i].lt(corrs[i + 1])
        invariant
            i < n,
            n == corrs.len(),
            n <= max - min + 1,
            max < len,
            climbed(corrs@, first) == climbed(corrs@, i as int),
        decreases n - i,
    {
        i += 1;
    }
    let best_lag: usize = min + i;
    let whole: F32 = F32::of_count(c, best_lag as u64);
    let fine: F32 = if best_lag > min && best_lag < max {
        let c0: F32 = sum_lagged(c, samples, start, best_lag - 1, win);
        let c1: F32 = sum_lagged(c, samples, start, best_lag, win);
        let c2: F32 = sum_lagged(c, samples, start, best_lag + 1, win);
        let denom: F32 = c0.sub(c, single(0x4000_0000).mul(c, c1)).add(c, c2);
        if single(0x3089_705f).lt(denom.abs()) {
            whole.add(c, single(0x3f00_0000).mul(c, c0.sub(c, c2)).div(c, denom))
        } else {
            whole
        }
    } else {
        whole
    };
    Some(sr.div(c, fine))
}

} // verus!
