//! What the audio device plays: the realtime engine's blocks at the device's rate, sent
//! through a ring to the device's own thread.
use crate::audio::{silence, StereoBuffer};
use crate::calc::{Calc, Op, Width};
use crate::grain::GrainEvent;
use crate::num::{double, single, F32, F64};
use crate::realtime::{
    beat_sample, block, fresh_engine, loop_plays, stream_time, Engine, LiveHit, RealtimeAudio,
};
use crate::render::planned;
use crate::timeline::{beats_of_secs, secs_of_beats, Project};
use vstd::prelude::*;

verus! {

/// How many samples the engine plays at a time.
pub const BLOCK: usize = 1024;

/// How many numbers the ring holds (about 90 ms at 48k stereo).
pub const RING_CAPACITY: usize = 8192;

// ---------------------------------------------------------------- the ring

/// The sending end of a ring of the `rtrb` crate.
#[verifier::external_type_specification]
#[verifier::external_body]
#[verifier::reject_recursive_types(T)]
pub struct ExProducer<T>(rtrb::Producer<T>);

/// The receiving end of a ring of the `rtrb` crate.
#[verifier::external_type_specification]
#[verifier::external_body]
#[verifier::reject_recursive_types(T)]
pub struct ExConsumer<T>(rtrb::Consumer<T>);

/// All that was put in at a sending end so far.
pub uninterp spec fn sent(p: rtrb::Producer<u32>) -> Seq<u32>;

/// How many numbers the ring of a sending end was made for.
pub uninterp spec fn room_of(p: rtrb::Producer<u32>) -> nat;

/// How often the ring was found full at a sending end so far.
pub uninterp spec fn found_full(p: rtrb::Producer<u32>) -> nat;

/// All that was taken out at a receiving end so far.
pub uninterp spec fn received(q: rtrb::Consumer<u32>) -> Seq<u32>;

/// How often the ring was found empty at a receiving end so far.
pub uninterp spec fn found_empty(q: rtrb::Consumer<u32>) -> nat;

/// `rtrb::RingBuffer::new` makes the two ends of an empty ring that holds as many numbers
/// as it is told.
#[verifier::external_body]
fn new_ring(capacity: usize) -> (r: (rtrb::Producer<u32>, rtrb::Consumer<u32>))
    requires
        capacity <= RING_CAPACITY,
    ensures
        sent(r.0) == Seq::<u32>::empty(),
        room_of(r.0) == capacity,
        found_full(r.0) == 0,
        received(r.1) == Seq::<u32>::empty(),
        found_empty(r.1) == 0,
{
    rtrb::RingBuffer::new(capacity)
}

/// `rtrb::Producer::push` puts a number in after all that were put in before, or, where
/// the ring is full, does nothing and says so. The ring cannot be full before as many
/// numbers as it holds were put in; after that it depends on how much the other end has
/// taken out by then, which is not stated.
#[verifier::external_body]
fn send(p: &mut rtrb::Producer<u32>, x: u32) -> (r: bool)
    ensures
        room_of(*final(p)) == room_of(*old(p)),
        sent(*old(p)).len() < room_of(*old(p)) ==> r,
        sent(*final(p)) == if r {
            sent(*old(p)).push(x)
        } else {
            sent(*old(p))
        },
        found_full(*final(p)) == if r {
            found_full(*old(p))
        } else {
            found_full(*old(p)) + 1
        },
{
    p.push(x).is_ok()
}

/// `rtrb::Consumer::pop` takes a number out, or, where the ring is empty, says so. Which
/// number comes, the oldest in the ring, depends on what the other end has put in by then,
/// which is not stated.
#[verifier::external_body]
fn receive(q: &mut rtrb::Consumer<u32>) -> (r: Option<u32>)
    ensures
        received(*final(q)) == match r {
            Some(x) => received(*old(q)).push(x),
            None => received(*old(q)),
        },
        found_empty(*final(q)) == match r {
            Some(_) => found_empty(*old(q)),
            None => found_empty(*old(q)) + 1,
        },
{
    q.pop().ok()
}

/// The two ends of the ring between the engine and the device.
pub fn open_ring() -> (r: (rtrb::Producer<u32>, rtrb::Consumer<u32>))
    ensures
        sent(r.0) == Seq::<u32>::empty(),
        room_of(r.0) == RING_CAPACITY,
        found_full(r.0) == 0,
        received(r.1) == Seq::<u32>::empty(),
        found_empty(r.1) == 0,
{
    new_ring(RING_CAPACITY)
}

// -------------------------------------------------------------- resampling

/// Takes a stream from one rate to another, in between two samples.
#[derive(Clone, Copy, Debug)]
pub struct Resampler {
    /// Samples that come in for each that goes out.
    pub ratio: F64,
    /// How far past the last sample but one.
    pub frac: F64,
    /// The last sample, left and right.
    pub prev: (F32, F32),
}

/// A value between two samples.
#[verifier::allow_in_spec]
pub fn in_between<K: Fn(Op, Width, u64, u64) -> u64>(c: &Calc<K>, a: F32, b: F32, frac: F64) -> F32
    requires
        c.sound(),
    returns
        (a.add(c, b.sub(c, a).mul(c, frac.to_f32(c)))),
{
    a.add(c, b.sub(c, a).mul(c, frac.to_f32(c)))
}

/// The ratio of two rates.
#[verifier::allow_in_spec]
pub fn rate_ratio<K: Fn(Op, Width, u64, u64) -> u64>(c: &Calc<K>, from: u32, to: u32) -> F64
    requires
        c.sound(),
    returns
        (F64::of_count(c, from as u64).div(c, F64::of_count(c, to as u64))),
{
    F64::of_count(c, from as u64).div(c, F64::of_count(c, to as u64))
}

/// What goes out between two samples, left and right in turn, and how far past the first
/// one the stream then is.
pub open spec fn spanned<K: Fn(Op, Width, u64, u64) -> u64>(c: &Calc<K>, a: (F32, F32), b: (F32, F32), ratio: F64, frac: F64, k: u64) -> (Seq<F32>, F64)
    decreases u64::MAX - k,
{
    if !frac.lt(double(0x3ff0_0000_0000_0000)) || k == u64::MAX {
        (seq![], frac)
    } else {
        let (rest, last) = spanned(c, a, b, ratio, frac.add(c, ratio), (k + 1) as u64);
        (
            seq![in_between(c, a.0, b.0, frac), in_between(c, a.1, b.1, frac)] + rest,
            last,
        )
    }
}

/// A resampler after one more sample, and what went out.
pub open spec fn moved_on<K: Fn(Op, Width, u64, u64) -> u64>(c: &Calc<K>, s: Resampler, x: (F32, F32)) -> (Resampler, Seq<F32>) {
    let (out, frac) = spanned(c, s.prev, x, s.ratio, s.frac, 0);
    (Resampler { frac: frac.sub(c, double(0x3ff0_0000_0000_0000)), prev: x, ..s }, out)
}

/// A resampler after some samples, and what went out.
pub open spec fn resampled<K: Fn(Op, Width, u64, u64) -> u64>(c: &Calc<K>, s: Resampler, xs: Seq<(F32, F32)>) -> (Resampler, Seq<F32>)
    decreases xs.len(),
{
    if xs.len() == 0 {
        (s, seq![])
    } else {
        let (mid, first) = resampled(c, s, xs.drop_last());
        let (last, out) = moved_on(c, mid, xs.last());
        (last, first + out)
    }
}

/// The samples of two channels side by side.
pub open spec fn side_by_side(l: Seq<F32>, r: Seq<F32>) -> Seq<(F32, F32)> {
    Seq::new(l.len(), |i: int| (l[i], r[i]))
}

fn span<K: Fn(Op, Width, u64, u64) -> u64>(c: &Calc<K>, a: (F32, F32), b: (F32, F32), ratio: F64, start: F64, out: &mut Vec<F32>) -> (r: F64)
    requires
        c.sound(),
    ensures
        final(out)@ == old(out)@ + spanned(c, a, b, ratio, start, 0).0,
        r == spanned(c, a, b, ratio, start, 0).1,
{
    let mut frac: F64 = start;
    let mut k: u64 = 0;
    let ghost first = out@;
    let ghost want = spanned(c, a, b, ratio, start, 0);
    while frac.lt(double(0x3ff0_0000_0000_0000)) && k != u64::MAX
        invariant
            c.sound(),
            first + want.0 =~= out@ + spanned(c, a, b, ratio, frac, k).0,
            want.1 == spanned(c, a, b, ratio, frac, k).1,
        decreases u64::MAX - k,
    {
        let ghost before = out@;
        out.push(in_between(c, a.0, b.0, frac));
        out.push(in_between(c, a.1, b.1, frac));
        proof {
            let rest = spanned(c, a, b, ratio, frac.add(c, ratio), (k + 1) as u64).0;
            assert(before + (seq![in_between(c, a.0, b.0, frac), in_between(c, a.1, b.1, frac)]
                + rest) =~= out@ + rest);
        }
        frac = frac.add(c, ratio);
        k += 1;
    }
    frac
}

impl Resampler {
    /// Take one block in; what goes out, left and right in turn.
    pub fn resample<K: Fn(Op, Width, u64, u64) -> u64>(&mut self, c: &Calc<K>, left: &Vec<F32>, right: &Vec<F32>) -> (r: Vec<F32>)
        requires
            c.sound(),
            left@.len() == right@.len(),
        ensures
            (*final(self), r@) == resampled(c, *old(self), side_by_side(left@, right@)),
    {
        let mut out: Vec<F32> = Vec::new();
        let ghost first = *self;
        let ghost xs = side_by_side(left@, right@);
        let mut i: usize = 0;
        assert(xs.take(0) =~= seq![]);
        while i < left.len()
            invariant
                c.sound(),
                i <= left@.len(),
                left@.len() == right@.len(),
                xs == side_by_side(left@, right@),
                (*self, out@) == resampled(c, first, xs.take(i as int)),
            decreases left.len() - i,
        {
            assert(xs.take(i + 1).drop_last() =~= xs.take(i as int));
            assert(xs.take(i + 1).last() == (left@[i as int], right@[i as int]));
            let x: (F32, F32) = (left[i], right[i]);
            let frac: F64 = span(c, self.prev, x, self.ratio, self.frac, &mut out);
            self.frac = frac.sub(c, double(0x3ff0_0000_0000_0000));
            self.prev = x;
            i += 1;
        }
        assert(xs.take(i as int) =~= xs);
        out
    }
}

// ------------------------------------------------------------------ feeding

/// What the transport is told.
#[derive(Clone, Copy, Debug)]
pub enum TransportCmd {
    Play { start_beat: F64, loop_region: Option<(F64, F64)> },
    Stop,
}

/// Runs the engine for a device.
#[derive(Debug)]
pub struct Feeder {
    pub engine: RealtimeAudio,
    pub device_rate: u32,
    pub resampler: Resampler,
    /// What is ready and not sent yet.
    pub pending: Vec<F32>,
}

/// The bit patterns of some numbers.
pub open spec fn patterns(xs: Seq<F32>) -> Seq<u32> {
    xs.map_values(|x: F32| x.bits)
}

/// Pad hits as the engine takes them: they sound now.
pub open spec fn stamped(queue: Seq<(usize, GrainEvent)>, now: F64) -> Seq<LiveHit> {
    queue.map_values(
        |q: (usize, GrainEvent)|
            LiveHit { source: q.0, event: GrainEvent { onset: now, ..q.1 } },
    )
}

impl Feeder {
    pub open spec fn wf<K: Fn(Op, Width, u64, u64) -> u64>(self, c: &Calc<K>) -> bool {
        self.engine.wf(c)
    }

    /// An engine that stands still at the start of a project.
    pub fn new<K: Fn(Op, Width, u64, u64) -> u64>(c: &Calc<K>, project: Project, device_rate: u32) -> (r: Feeder)
        requires
            c.sound(),
            project.wf(),
        ensures
            r.wf(c),
            r.engine.project == project,
            r.engine.engine() == (Engine {
                transport: false,
                ..fresh_engine(c, project, double(0), None)
            }),
            r.device_rate == device_rate,
            r.resampler == (Resampler {
                ratio: rate_ratio(c, project.sample_rate, device_rate),
                frac: double(0),
                prev: (single(0), single(0)),
            }),
            r.pending@.len() == 0,
    {
        let ratio: F64 = rate_ratio(c, project.sample_rate, device_rate);
        let mut engine: RealtimeAudio = RealtimeAudio::new(c, project, double(0), None);
        engine.transport = false;
        Feeder {
            engine,
            device_rate,
            resampler: Resampler { ratio, frac: double(0), prev: (single(0), single(0)) },
            pending: Vec::new(),
        }
    }

    /// Something was edited: go on from the same beat with another project, where there is
    /// one, and otherwise change the loop alone.
    pub fn refresh<K: Fn(Op, Width, u64, u64) -> u64>(&mut self, c: &Calc<K>, project: Option<Project>, loop_now: Option<(F64, F64)>)
        requires
            c.sound(),
            old(self).wf(c),
            project is Some ==> project->0.wf(),
        ensures
            final(self).wf(c),
            final(self).device_rate == old(self).device_rate,
            final(self).pending == old(self).pending,
            match project {
                Some(p) => {
                    let was = old(self).engine;
                    let beat = beats_of_secs(
                        c,
                        was.project.bpm,
                        stream_time(c, was.project.sample_rate, was.sample_pos),
                    );
                    &&& final(self).engine.project == p
                    &&& final(self).engine.engine() == Engine {
                        transport: was.transport,
                        ..fresh_engine(c, p, beat, loop_now)
                    }
                    &&& final(self).resampler == Resampler {
                        ratio: rate_ratio(c, p.sample_rate, old(self).device_rate),
                        ..old(self).resampler
                    }
                },
                None => {
                    &&& final(self).engine == RealtimeAudio {
                        loop_region: loop_now,
                        ..old(self).engine
                    }
                    &&& final(self).resampler == old(self).resampler
                },
            },
    {
        match project {
            Some(p) => {
                let beat: F64 = self.engine.playhead_beats(c);
                let transport: bool = self.engine.transport;
                let rate: u32 = p.sample_rate;
                let mut engine: RealtimeAudio = RealtimeAudio::new(c, p, beat, loop_now);
                engine.transport = transport;
                self.engine = engine;
                self.resampler.ratio = rate_ratio(c, rate, self.device_rate);
            },
            None => {
                self.engine.loop_region = loop_now;
            },
        }
    }

    /// Start or stop the arrangement.
    pub fn command<K: Fn(Op, Width, u64, u64) -> u64>(&mut self, c: &Calc<K>, cmd: TransportCmd)
        requires
            c.sound(),
            old(self).wf(c),
        ensures
            final(self).wf(c),
            *final(self) == (Feeder { engine: final(self).engine, ..*old(self) }),
            final(self).engine == match cmd {
                TransportCmd::Play { start_beat, loop_region } => RealtimeAudio {
                    sample_pos: beat_sample(
                        c,
                        old(self).engine.project.bpm,
                        old(self).engine.project.sample_rate,
                        start_beat.max(double(0)),
                    ),
                    loop_region,
                    transport: true,
                    ..old(self).engine
                },
                TransportCmd::Stop => RealtimeAudio { transport: false, ..old(self).engine },
            },
    {
        match cmd {
            TransportCmd::Play { start_beat, loop_region } => {
                self.engine.seek_beats(c, start_beat);
                self.engine.loop_region = loop_region;
                self.engine.transport = true;
            },
            TransportCmd::Stop => {
                self.engine.transport = false;
            },
        }
    }

    /// Play pad hits; they sound from now on.
    pub fn pads<K: Fn(Op, Width, u64, u64) -> u64>(&mut self, c: &Calc<K>, queue: &Vec<(usize, GrainEvent)>)
        requires
            c.sound(),
            old(self).wf(c),
        ensures
            final(self).wf(c),
            *final(self) == (Feeder { engine: final(self).engine, ..*old(self) }),
            final(self).engine == (RealtimeAudio {
                live: final(self).engine.live,
                ..old(self).engine
            }),
            final(self).engine.live@ == old(self).engine.live@ + stamped(
                queue@,
                stream_time(
                    c,
                    old(self).engine.project.sample_rate,
                    old(self).engine.live_pos,
                ),
            ),
    {
        let now: F64 = self.engine.live_now_secs(c);
        let ghost first = *self;
        let mut i: usize = 0;
        while i < queue.len()
            invariant
                c.sound(),
                first.wf(c),
                self.wf(c),
                i <= queue@.len(),
                *self == (Feeder { engine: self.engine, ..first }),
                self.engine == (RealtimeAudio { live: self.engine.live, ..first.engine }),
                self.engine.live@ =~= first.engine.live@ + stamped(queue@, now).take(i as int),
            decreases queue.len() - i,
        {
            let source: usize = queue[i].0;
            let mut event: GrainEvent = queue[i].1;
            event.onset = now;
            self.engine.trigger_live(source, event);
            i += 1;
        }
        assert(stamped(queue@, now).take(i as int) =~= stamped(queue@, now));
    }

    /// Play the next block where nothing is left to send.
    pub fn advance<K: Fn(Op, Width, u64, u64) -> u64>(&mut self, c: &Calc<K>)
        requires
            c.sound(),
            old(self).wf(c),
            loop_plays(c, old(self).engine.project, old(self).engine.loop_region),
        ensures
            final(self).wf(c),
            final(self).device_rate == old(self).device_rate,
            final(self).engine.project == old(self).engine.project,
            final(self).engine.loop_region == old(self).engine.loop_region,
            if old(self).pending@.len() > 0 {
                *final(self) == *old(self)
            } else {
                let (next, out) = block(
                    c,
                    old(self).engine.project,
                    planned(c, old(self).engine.project),
                    old(self).engine.engine(),
                    BLOCK as nat,
                );
                &&& final(self).engine.engine() == next
                &&& (final(self).resampler, final(self).pending@) == resampled(
                    c,
                    old(self).resampler,
                    side_by_side(out.l, out.r),
                )
            },
    {
        if self.pending.len() > 0 {
            return;
        }
        let mut left: Vec<F32> = silence(BLOCK);
        let mut right: Vec<F32> = silence(BLOCK);
        self.engine.next_block(c, &mut left, &mut right);
        self.pending = self.resampler.resample(c, &left, &right);
    }

    /// Send what fits: all, or until the ring is found full. Whether nothing is left.
    pub fn feed(&mut self, ring: &mut rtrb::Producer<u32>) -> (r: bool)
        ensures
            room_of(*final(ring)) == room_of(*old(ring)),
            found_full(*final(ring)) == found_full(*old(ring)) + if r {
                0nat
            } else {
                1nat
            },
            sent(*old(ring)).len() + old(self).pending@.len() <= room_of(*old(ring)) ==> r,
            *final(self) == (Feeder { pending: final(self).pending, ..*old(self) }),
            r == (final(self).pending@.len() == 0),
            final(self).pending@.len() <= old(self).pending@.len(),
            ({
                let k = old(self).pending@.len() - final(self).pending@.len();
                &&& sent(*final(ring)) == sent(*old(ring)) + patterns(old(self).pending@.take(k))
                &&& final(self).pending@ == old(self).pending@.skip(k)
            }),
    {
        let n: usize = self.pending.len();
        let ghost before = sent(*ring);
        let ghost all = self.pending@;
        let mut k: usize = 0;
        let mut full: bool = false;
        assert(patterns(all.take(0)) =~= seq![]);
        while k < n && !full
            invariant
                k <= n,
                n == all.len(),
                self.pending@ == all,
                *self == *old(self),
                sent(*ring) =~= before + patterns(all.take(k as int)),
                room_of(*ring) == room_of(*old(ring)),
                !full ==> found_full(*ring) == found_full(*old(ring)),
                full ==> k < n && found_full(*ring) == found_full(*old(ring)) + 1 && before.len() + k
                    >= room_of(*ring),
            decreases n - k, (if full { 0nat } else { 1nat }),
        {
            assert(patterns(all.take(k + 1)) =~= patterns(all.take(k as int)).push(
                all[k as int].bits,
            ));
            if send(ring, self.pending[k].bits) {
                k += 1;
            } else {
                full = true;
            }
        }
        let mut rest: Vec<F32> = Vec::new();
        let mut i: usize = k;
        while i < n
            invariant
                k <= i <= n,
                n == all.len(),
                self.pending@ == all,
                *self == *old(self),
                rest@ =~= all.subrange(k as int, i as int),
            decreases n - i,
        {
            rest.push(self.pending[i]);
            i += 1;
        }
        assert(rest@ =~= all.skip(k as int));
        self.pending = rest;
        k == n
    }
}

/// Whether a loop, where there is one, is at least one sample long.
pub fn loop_is_playable<K: Fn(Op, Width, u64, u64) -> u64>(c: &Calc<K>, project: &Project, region: Option<(F64, F64)>) -> (r: bool)
    requires
        c.sound(),
    ensures
        r == loop_plays(c, *project, region),
{
    match region {
        Some((from, to)) => !from.lt(to) || beat_sample(
            c,
            project.bpm,
            project.sample_rate,
            from.max(double(0)),
        ) < beat_sample(c, project.bpm, project.sample_rate, to),
        None => true,
    }
}

// ---------------------------------------------------------------- the device

/// Two channels on one.
#[verifier::allow_in_spec]
pub fn mono<K: Fn(Op, Width, u64, u64) -> u64>(c: &Calc<K>, l: F32, r: F32) -> F32
    requires
        c.sound(),
    returns
        (single(0x3f00_0000).mul(c, l.add(c, r))),
{
    single(0x3f00_0000).mul(c, l.add(c, r))
}

/// Place `j` of a frame that plays a left and a right sample.
pub open spec fn frame_value<K: Fn(Op, Width, u64, u64) -> u64>(c: &Calc<K>, channels: int, j: int, l: F32, r: F32) -> F32 {
    if channels == 1 {
        mono(c, l, r)
    } else if j == 0 {
        l
    } else if j == 1 {
        r
    } else {
        single(0)
    }
}

/// What a device with `channels` channels gets: one frame for each pair of samples, then
/// silence.
pub open spec fn device_frames<K: Fn(Op, Width, u64, u64) -> u64>(c: &Calc<K>, pairs: Seq<F32>, frames: int, channels: int, n: nat) -> Seq<F32> {
    Seq::new(
        n,
        |i: int|
            if i / channels < frames {
                frame_value(
                    c,
                    channels,
                    i % channels,
                    pairs[2 * (i / channels)],
                    pairs[2 * (i / channels) + 1],
                )
            } else {
                single(0)
            },
    )
}

fn write_frame<K: Fn(Op, Width, u64, u64) -> u64>(c: &Calc<K>, data: &mut Vec<F32>, at: usize, channels: usize, l: F32, r: F32)
    requires
        c.sound(),
        channels > 0,
        at + channels <= old(data)@.len(),
        forall|i: int| at <= i < at + channels ==> #[trigger] old(data)@[i] == single(0),
    ensures
        final(data)@.len() == old(data)@.len(),
        forall|i: int|
            0 <= i < old(data)@.len() ==> #[trigger] final(data)@[i] == if at <= i < at + channels {
                frame_value(c, channels as int, i - at, l, r)
            } else {
                old(data)@[i]
            },
{
    let n: usize = data.len();
    assert(at + channels <= n);
    if channels == 1 {
        data.set(at, mono(c, l, r));
    } else {
        data.set(at, l);
        data.set(at + 1, r);
    }
}

proof fn lemma_frame_place(i: int, f: int, channels: int)
    requires
        0 <= i,
        0 <= f,
        channels > 0,
    ensures
        f * channels <= i < f * channels + channels <==> i / channels == f,
        i < f * channels <==> i / channels < f,
        i / channels == f ==> i % channels == i - f * channels,
{
    vstd::arithmetic::div_mod::lemma_fundamental_div_mod(i, channels);
    let q = i / channels;
    assert((f * channels <= i < f * channels + channels <==> q == f) && (i < f * channels <==> q
        < f) && (q == f ==> i % channels == i - f * channels)) by (nonlinear_arith)
        requires
            channels > 0,
            i == channels * q + i % channels,
            0 <= i % channels < channels,
    ;
}

proof fn lemma_no_frames<K: Fn(Op, Width, u64, u64) -> u64>(c: &Calc<K>, pairs: Seq<F32>, channels: int, n: nat)
    requires
        channels > 0,
    ensures
        device_frames(c, pairs, 0, channels, n) == Seq::new(n, |i: int| single(0)),
{
    let silent = Seq::new(n, |i: int| single(0));
    assert forall|i: int| 0 <= i < n implies device_frames(c, pairs, 0, channels, n)[i]
        == silent[i] by {
        lemma_frame_place(i, 0, channels);
    }
    assert(device_frames(c, pairs, 0, channels, n) =~= silent);
}

/// The numbers of some bit patterns.
pub open spec fn numbers(xs: Seq<u32>) -> Seq<F32> {
    xs.map_values(|x: u32| F32 { bits: x })
}

/// Fill a device's buffer of `n` places from the ring; how many frames there were. A
/// frame takes two numbers out; where the ring is found empty, the rest is silence.
pub fn fill_from_ring<K: Fn(Op, Width, u64, u64) -> u64>(c: &Calc<K>, ring: &mut rtrb::Consumer<u32>, n: usize, channels: usize) -> (r: (Vec<F32>, u64))
    requires
        c.sound(),
        channels > 0,
        n % channels == 0,
    ensures
        received(*old(ring)).len() <= received(*final(ring)).len(),
        received(*final(ring)).take(received(*old(ring)).len() as int) == received(*old(ring)),
        r.1 * channels <= n,
        ({
            let taken = received(*final(ring)).skip(received(*old(ring)).len() as int);
            &&& 2 * r.1 <= taken.len() <= 2 * r.1 + 1
            &&& r.0@ == device_frames(c, numbers(taken), r.1 as int, channels as int, n as nat)
            &&& taken.len() == 2 * r.1 + 1 ==> r.1 * channels < n
            &&& found_empty(*final(ring)) == found_empty(*old(ring)) + if r.1 * channels < n {
                2 - (taken.len() - 2 * r.1)
            } else {
                0
            }
        }),
{
    let mut data: Vec<F32> = silence(n);
    let ghost first = received(*ring);
    let mut frames: u64 = 0;
    let mut at: usize = 0;
    let mut dry: bool = false;
    proof {
        vstd::arithmetic::div_mod::lemma_fundamental_div_mod(n as int, channels as int);
        lemma_no_frames(c, numbers(received(*ring).skip(first.len() as int)), channels as int, n as nat);
    }
    let ghost total = (n / channels) as int;
    assert(n == total * channels) by (nonlinear_arith)
        requires
            n == channels * total + n % channels,
            n % channels == 0,
    ;
    while at < n && !dry
        invariant
            c.sound(),
            channels > 0,
            data@.len() == n,
            n == total * channels,
            at == frames * channels,
            at <= n,
            first.len() <= received(*ring).len(),
            received(*ring).take(first.len() as int) =~= first,
            !dry ==> received(*ring).len() == first.len() + 2 * frames,
            dry ==> at < n && first.len() + 2 * frames <= received(*ring).len() <= first.len() + 2
                * frames + 1,
            !dry ==> found_empty(*ring) == found_empty(*old(ring)),
            dry ==> found_empty(*ring) == found_empty(*old(ring)) + 2 - (received(*ring).len()
                - first.len() - 2 * frames),
            data@ =~= device_frames(
                c,
                numbers(received(*ring).skip(first.len() as int)),
                frames as int,
                channels as int,
                n as nat,
            ),
        decreases n - at, (if dry { 0nat } else { 1nat }),
    {
        proof {
            assert(frames < total) by (nonlinear_arith)
                requires
                    frames * channels < total * channels,
                    channels > 0,
            ;
            assert((frames + 1) * channels <= total * channels) by (nonlinear_arith)
                requires
                    frames + 1 <= total,
                    channels > 0,
            ;
            assert((frames + 1) * channels == at + channels) by (nonlinear_arith)
                requires
                    at == frames * channels,
            ;
        }
        let ghost before = received(*ring).skip(first.len() as int);
        let ghost was = data@;
        let a: Option<u32> = receive(ring);
        let b: Option<u32> = receive(ring);
        let ghost after = received(*ring).skip(first.len() as int);
        match (a, b) {
            (Some(x), Some(y)) => {
                proof {
                    assert(after =~= before.push(x).push(y));
                    assert forall|i: int| at <= i < at + channels implies #[trigger] data@[i]
                        == single(0) by {
                        lemma_frame_place(i, frames as int, channels as int);
                    }
                }
                write_frame(c, &mut data, at, channels, F32 { bits: x }, F32 { bits: y });
                proof {
                    assert forall|i: int| 0 <= i < n implies #[trigger] data@[i] == device_frames(
                        c,
                        numbers(after),
                        frames + 1,
                        channels as int,
                        n as nat,
                    )[i] by {
                        lemma_frame_place(i, frames as int, channels as int);
                        let f = i / (channels as int);
                        if f < frames {
                            assert(was[i] == device_frames(
                                c,
                                numbers(before),
                                frames as int,
                                channels as int,
                                n as nat,
                            )[i]);
                            assert(f >= 0) by {
                                vstd::arithmetic::div_mod::lemma_div_pos_is_pos(i, channels as int);
                            }
                            assert(numbers(after)[2 * f] == numbers(before)[2 * f]);
                            assert(numbers(after)[2 * f + 1] == numbers(before)[2 * f + 1]);
                        }
                    }
                    assert(frames < u64::MAX) by (nonlinear_arith)
                        requires
                            frames < total,
                            total * channels == n,
                            channels > 0,
                            n <= usize::MAX,
                            usize::MAX <= u64::MAX,
                    ;
                }
                frames += 1;
                at += channels;
            },
            _ => {
                dry = true;
                proof {
                    assert forall|i: int| 0 <= i < n implies #[trigger] data@[i] == device_frames(
                        c,
                        numbers(after),
                        frames as int,
                        channels as int,
                        n as nat,
                    )[i] by {
                        let f = i / (channels as int);
                        if f < frames {
                            assert(f >= 0) by {
                                vstd::arithmetic::div_mod::lemma_div_pos_is_pos(i, channels as int);
                            }
                            assert(numbers(after)[2 * f] == numbers(before)[2 * f]);
                            assert(numbers(after)[2 * f + 1] == numbers(before)[2 * f + 1]);
                        }
                    }
                }
            },
        }
    }
    (data, frames)
}

// ----------------------------------------------------------------- playhead

/// How long `frames` frames last at a rate, seconds.
#[verifier::allow_in_spec]
pub fn played_secs<K: Fn(Op, Width, u64, u64) -> u64>(c: &Calc<K>, frames: u64, device_rate: u32) -> F64
    requires
        c.sound(),
    returns
        (F64::of_count(c, frames).div(c, F64::of_count(c, device_rate as u64))),
{
    F64::of_count(c, frames).div(c, F64::of_count(c, device_rate as u64))
}

/// A time past the start of a loop, back inside it.
#[verifier::allow_in_spec]
pub fn folded<K: Fn(Op, Width, u64, u64) -> u64>(c: &Calc<K>, raw: F64, from: F64, to: F64) -> F64
    requires
        c.sound(),
    returns
        (from.add(c, raw.sub(c, from).rem(c, to.sub(c, from)))),
{
    from.add(c, raw.sub(c, from).rem(c, to.sub(c, from)))
}

/// The playhead in project seconds, folded into the loop where there is one.
pub open spec fn playhead_at<K: Fn(Op, Width, u64, u64) -> u64>(c: &Calc<K>, bpm: F64, start_secs: F64, consumed: F64, region: Option<(F64, F64)>) -> F64 {
    let raw = start_secs.add(c, consumed);
    match region {
        Some((a, b)) => {
            let from = secs_of_beats(c, bpm, a);
            let to = secs_of_beats(c, bpm, b);
            if from.lt(to) && from.le(raw) {
                folded(c, raw, from, to)
            } else {
                raw
            }
        },
        None => raw,
    }
}

/// Current playhead in project seconds (loop-folded), of where playing started and how
/// long it has gone on.
pub fn playhead_secs<K: Fn(Op, Width, u64, u64) -> u64>(c: &Calc<K>, project: &Project, start_secs: F64, consumed: F64, region: Option<(F64, F64)>) -> (r: F64)
    requires
        c.sound(),
    ensures
        r == playhead_at(c, project.bpm, start_secs, consumed, region),
{
    let raw: F64 = start_secs.add(c, consumed);
    if let Some((a, b)) = region {
        let from: F64 = project.beats_to_secs(c, a);
        let to: F64 = project.beats_to_secs(c, b);
        if from.lt(to) && from.le(raw) {
            return folded(c, raw, from, to);
        }
    }
    raw
}

// ------------------------------------------------------------------- bounce

/// Plays a bounced buffer.
#[derive(Debug)]
pub struct Bounce {
    /// Left and right in turn, at the device's rate.
    pub samples: Vec<F32>,
    pub pos: usize,
    pub playing: bool,
    pub device_rate: u32,
}

/// A value between two samples, weighted.
#[verifier::allow_in_spec]
pub fn weighted<K: Fn(Op, Width, u64, u64) -> u64>(c: &Calc<K>, a: F32, b: F32, frac: F32) -> F32
    requires
        c.sound(),
    returns
        (a.mul(c, single(0x3f80_0000).sub(c, frac)).add(c, b.mul(c, frac))),
{
    a.mul(c, single(0x3f80_0000).sub(c, frac)).add(c, b.mul(c, frac))
}

/// Where output sample `i` reads.
#[verifier::allow_in_spec]
pub fn bounce_at<K: Fn(Op, Width, u64, u64) -> u64>(c: &Calc<K>, i: u64, ratio: F64) -> F64
    requires
        c.sound(),
    returns
        (F64::of_count(c, i).mul(c, ratio)),
{
    F64::of_count(c, i).mul(c, ratio)
}

/// How far a place is past a sample.
#[verifier::allow_in_spec]
pub fn bounce_frac<K: Fn(Op, Width, u64, u64) -> u64>(c: &Calc<K>, at: F64, i0: u64) -> F32
    requires
        c.sound(),
    returns
        (at.sub(c, F64::of_count(c, i0)).to_f32(c)),
{
    at.sub(c, F64::of_count(c, i0)).to_f32(c)
}

/// A channel at a place.
pub open spec fn bounce_value<K: Fn(Op, Width, u64, u64) -> u64>(c: &Calc<K>, xs: Seq<F32>, at: F64) -> F32 {
    let i0 = at.to_size(c) as int;
    let i1 = if i0 + 1 < xs.len() {
        i0 + 1
    } else {
        xs.len() - 1
    };
    weighted(c, xs[i0], xs[i1], bounce_frac(c, at, i0 as u64))
}

/// A bounce at the device's rate, from output sample `i` on, as far as the buffer goes.
pub open spec fn bounced<K: Fn(Op, Width, u64, u64) -> u64>(c: &Calc<K>, l: Seq<F32>, r: Seq<F32>, ratio: F64, i: int, n: int) -> Seq<F32>
    decreases n - i,
{
    let at = bounce_at(c, i as u64, ratio);
    if i >= n || at.to_size(c) >= l.len() {
        seq![]
    } else {
        seq![bounce_value(c, l, at), bounce_value(c, r, at)] + bounced(c, l, r, ratio, i + 1, n)
    }
}

/// How many samples a buffer has at another rate.
#[verifier::allow_in_spec]
pub fn bounce_len<K: Fn(Op, Width, u64, u64) -> u64>(c: &Calc<K>, len: u64, ratio: F64) -> usize
    requires
        c.sound(),
    returns
        (F64::of_count(c, len).div(c, ratio).to_size(c)),
{
    F64::of_count(c, len).div(c, ratio).to_size(c)
}

/// Where playing from a time starts.
#[verifier::allow_in_spec]
pub fn bounce_frame<K: Fn(Op, Width, u64, u64) -> u64>(c: &Calc<K>, secs: F64, device_rate: u32) -> usize
    requires
        c.sound(),
    returns
        (secs.mul(c, F64::of_count(c, device_rate as u64)).to_size(c)),
{
    secs.mul(c, F64::of_count(c, device_rate as u64)).to_size(c)
}

fn bounce_sample<K: Fn(Op, Width, u64, u64) -> u64>(c: &Calc<K>, xs: &Vec<F32>, at: F64) -> (r: F32)
    requires
        c.sound(),
        at.to_size(c) < xs@.len(),
    ensures
        r == bounce_value(c, xs@, at),
{
    let i0: usize = at.to_size(c);
    let i1: usize = if i0 < xs.len() - 1 {
        i0 + 1
    } else {
        xs.len() - 1
    };
    weighted(c, xs[i0], xs[i1], bounce_frac(c, at, i0 as u64))
}

impl Bounce {
    pub fn new(device_rate: u32) -> (r: Bounce)
        ensures
            r.samples@.len() == 0,
            r.pos == 0,
            !r.playing,
            r.device_rate == device_rate,
    {
        Bounce { samples: Vec::new(), pos: 0, playing: false, device_rate }
    }

    /// Load a bounce, resampling to the device rate if needed.
    pub fn set_buffer<K: Fn(Op, Width, u64, u64) -> u64>(&mut self, c: &Calc<K>, buffer: &StereoBuffer)
        requires
            c.sound(),
            buffer.wf(),
        ensures
            final(self).samples@ == bounced(
                c,
                buffer.left@,
                buffer.right@,
                rate_ratio(c, buffer.sample_rate, old(self).device_rate),
                0,
                bounce_len(
                    c,
                    buffer.left@.len() as u64,
                    rate_ratio(c, buffer.sample_rate, old(self).device_rate),
                ) as int,
            ),
            final(self).pos == 0,
            final(self).playing == old(self).playing,
            final(self).device_rate == old(self).device_rate,
    {
        let ratio: F64 = rate_ratio(c, buffer.sample_rate, self.device_rate);
        let n: usize = bounce_len(c, buffer.left.len() as u64, ratio);
        let mut out: Vec<F32> = Vec::new();
        let ghost want = bounced(c, buffer.left@, buffer.right@, ratio, 0, n as int);
        let mut i: usize = 0;
        let mut more: bool = true;
        while i < n && more
            invariant
                c.sound(),
                buffer.wf(),
                i <= n,
                more ==> want =~= out@ + bounced(c, buffer.left@, buffer.right@, ratio, i as int, n as int),
                !more ==> want == out@,
            decreases n - i, (if more { 1nat } else { 0nat }),
        {
            let at: F64 = bounce_at(c, i as u64, ratio);
            if at.to_size(c) >= buffer.left.len() {
                more = false;
            } else {
                let ghost before = out@;
                let l: F32 = bounce_sample(c, &buffer.left, at);
                let r: F32 = bounce_sample(c, &buffer.right, at);
                out.push(l);
                out.push(r);
                assert(before + (seq![l, r] + bounced(
                    c,
                    buffer.left@,
                    buffer.right@,
                    ratio,
                    i + 1,
                    n as int,
                )) =~= out@ + bounced(c, buffer.left@, buffer.right@, ratio, i + 1, n as int));
                i += 1;
            }
        }
        self.samples = out;
        self.pos = 0;
    }

    pub fn play_from<K: Fn(Op, Width, u64, u64) -> u64>(&mut self, c: &Calc<K>, secs: F64)
        requires
            c.sound(),
            bounce_frame(c, secs, old(self).device_rate) <= usize::MAX / 2,
        ensures
            final(self).pos == bounce_frame(c, secs, old(self).device_rate) * 2,
            final(self).playing,
            final(self).samples == old(self).samples,
            final(self).device_rate == old(self).device_rate,
    {
        self.pos = bounce_frame(c, secs, self.device_rate) * 2;
        self.playing = true;
    }

    pub fn stop(&mut self)
        ensures
            *final(self) == (Bounce { playing: false, ..*old(self) }),
    {
        self.playing = false;
    }

    pub fn is_playing(&self) -> (r: bool)
        ensures
            r == self.playing,
    {
        self.playing
    }

    /// Current playhead in seconds.
    pub fn position_secs<K: Fn(Op, Width, u64, u64) -> u64>(&self, c: &Calc<K>) -> (r: F64)
        requires
            c.sound(),
        ensures
            r == F64::of_count(c, self.pos as u64).div(c, double(0x4000_0000_0000_0000)).div(
                c,
                F64::of_count(c, self.device_rate as u64),
            ),
    {
        F64::of_count(c, self.pos as u64).div(c, double(0x4000_0000_0000_0000)).div(
            c,
            F64::of_count(c, self.device_rate as u64),
        )
    }

    /// How many frames are left to play.
    pub open spec fn frames_left(self) -> int {
        if self.playing && self.pos < self.samples@.len() {
            (self.samples@.len() - self.pos) / 2
        } else {
            0
        }
    }

    /// Fill a device's buffer of `n` places. Where the bounce ends first, the rest is
    /// silence and playing stops.
    pub fn fill<K: Fn(Op, Width, u64, u64) -> u64>(&mut self, c: &Calc<K>, n: usize, channels: usize) -> (r: Vec<F32>)
        requires
            c.sound(),
            channels > 0,
            n % channels == 0,
        ensures
            final(self).samples == old(self).samples,
            final(self).device_rate == old(self).device_rate,
            ({
                let want = (n / channels) as int;
                let m = if old(self).frames_left() < want {
                    old(self).frames_left()
                } else {
                    want
                };
                &&& final(self).pos == old(self).pos + 2 * m
                &&& final(self).playing == (old(self).playing && m == want)
                &&& r@ == device_frames(
                    c,
                    old(self).samples@.skip(old(self).pos as int),
                    m,
                    channels as int,
                    n as nat,
                )
            }),
    {
        let mut data: Vec<F32> = silence(n);
        proof {
            vstd::arithmetic::div_mod::lemma_fundamental_div_mod(n as int, channels as int);
        }
        let ghost pairs = self.samples@.skip(self.pos as int);
        let ghost first = *self;
        if !self.playing {
            proof {
                lemma_no_frames(c, pairs, channels as int, n as nat);
            }
            return data;
        }
        let total: usize = n / channels;
        assert(n == total * channels) by (nonlinear_arith)
            requires
                n == channels * total + n % channels,
                n % channels == 0,
        ;
        let len: usize = self.samples.len();
        let mut frames: usize = 0;
        let mut at: usize = 0;
        proof {
            lemma_no_frames(c, pairs, channels as int, n as nat);
        }
        while frames < total && self.playing
            invariant
                c.sound(),
                channels > 0,
                data@.len() == n,
                n == total * channels,
                frames <= total,
                at == frames * channels,
                len == first.samples@.len(),
                pairs == first.samples@.skip(first.pos as int),
                first.playing,
                self.samples == first.samples,
                self.device_rate == first.device_rate,
                self.pos == first.pos + 2 * frames,
                frames <= first.frames_left(),
                !self.playing ==> frames == first.frames_left() && frames < total,
                data@ =~= device_frames(c, pairs, frames as int, channels as int, n as nat),
            decreases total - frames, (if self.playing { 1nat } else { 0nat }),
        {
            if self.pos >= len || self.pos == len - 1 {
                self.playing = false;
            } else {
                let l: F32 = self.samples[self.pos];
                let r: F32 = self.samples[self.pos + 1];
                let ghost was = data@;
                proof {
                    assert((frames + 1) * channels <= total * channels) by (nonlinear_arith)
                        requires
                            frames + 1 <= total,
                            channels > 0,
                    ;
                    assert((frames + 1) * channels == at + channels) by (nonlinear_arith)
                        requires
                            at == frames * channels,
                    ;
                    assert forall|i: int| at <= i < at + channels implies #[trigger] data@[i]
                        == single(0) by {
                        lemma_frame_place(i, frames as int, channels as int);
                    }
                    assert(pairs[2 * frames] == l);
                    assert(pairs[2 * frames + 1] == r);
                }
                write_frame(c, &mut data, at, channels, l, r);
                proof {
                    assert forall|i: int| 0 <= i < n implies #[trigger] data@[i] == device_frames(
                        c,
                        pairs,
                        frames + 1,
                        channels as int,
                        n as nat,
                    )[i] by {
                        lemma_frame_place(i, frames as int, channels as int);
                        assert(was[i] == device_frames(
                            c,
                            pairs,
                            frames as int,
                            channels as int,
                            n as nat,
                        )[i]);
                    }
                }
                self.pos = self.pos + 2;
                frames += 1;
                at += channels;
            }
        }
        data
    }
}

// --------------------------------------------------------------------- laws

/// Resampling block by block gives what resampling all at once gives.
pub proof fn law_resampling_streams<K: Fn(Op, Width, u64, u64) -> u64>(c: &Calc<K>, s: Resampler, a: Seq<(F32, F32)>, b: Seq<(F32, F32)>)
    ensures
        ({
            let (mid, first) = resampled(c, s, a);
            let (last, rest) = resampled(c, mid, b);
            resampled(c, s, a + b) == (last, first + rest)
        }),
    decreases b.len(),
{
    let (mid, first) = resampled(c, s, a);
    if b.len() == 0 {
        assert(a + b =~= a);
        assert(first + seq![] =~= first);
    } else {
        law_resampling_streams(c, s, a, b.drop_last());
        assert((a + b).drop_last() =~= a + b.drop_last());
        assert((a + b).last() == b.last());
        let (m, rest) = resampled(c, mid, b.drop_last());
        let (last, out) = moved_on(c, m, b.last());
        assert((first + rest) + out =~= first + (rest + out));
    }
}

/// Whatever the device's channels, every pair of samples fills one frame, and what is not
/// filled is silence.
pub proof fn law_frames_past_the_samples_are_silent<K: Fn(Op, Width, u64, u64) -> u64>(c: &Calc<K>, pairs: Seq<F32>, frames: int, channels: int, n: nat, i: int)
    requires
        channels > 0,
        0 <= i < n,
        i >= frames * channels,
        frames >= 0,
    ensures
        device_frames(c, pairs, frames, channels, n)[i] == single(0),
{
    lemma_frame_place(i, frames, channels);
}

} // verus!
