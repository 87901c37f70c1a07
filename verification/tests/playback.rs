#![allow(dead_code)]
use chromagrain::calc::{Calc, Op, Width};
use chromagrain::num::{F32, F64};
use chromagrain::audio::{AudioClip, StereoBuffer};
use chromagrain::grain::GrainEvent;
use chromagrain::playback::{
    fill_from_ring, loop_is_playable, open_ring, played_secs, playhead_secs, Bounce, Feeder,
    Resampler, TransportCmd, BLOCK, RING_CAPACITY,
};
use chromagrain::realtime::RealtimeAudio;
use chromagrain::timeline::{Clip, Project, Source};
use std::sync::Arc;

fn calc() -> Calc<impl Fn(Op, Width, u64, u64) -> u64> {
    let native = |o: Op, w: Width, a: u64, b: u64| -> u64 { match w {
        Width::Single => {
            let x = f32::from_bits(a as u32);
            let y = f32::from_bits(b as u32);
            let r = match o {
                Op::Add => x + y,
                Op::Sub => x - y,
                Op::Mul => x * y,
                Op::Div => x / y,
                Op::Rem => x % y,
                Op::RemEuclid => x.rem_euclid(y),
                Op::Sqrt => x.sqrt(),
                Op::Sin => x.sin(),
                Op::Cos => x.cos(),
                Op::Tanh => x.tanh(),
                Op::Pow => x.powf(y),
                Op::Log2 => x.log2(),
                Op::Exp => x.exp(),
                Op::Floor => x.floor(),
                Op::Ceil => x.ceil(),
                Op::Round => x.round(),
                Op::Fract => x.fract(),
                Op::FromInt => a as i64 as f32,
                Op::FromUint => a as f32,
                Op::ToInt => return x as i64 as u64,
                Op::ToUint => return x as u64,
                Op::Convert => return (x as f64).to_bits(),
            };
            r.to_bits() as u64
        }
        Width::Double => {
            let x = f64::from_bits(a);
            let y = f64::from_bits(b);
            let r = match o {
                Op::Add => x + y,
                Op::Sub => x - y,
                Op::Mul => x * y,
                Op::Div => x / y,
                Op::Rem => x % y,
                Op::RemEuclid => x.rem_euclid(y),
                Op::Sqrt => x.sqrt(),
                Op::Sin => x.sin(),
                Op::Cos => x.cos(),
                Op::Tanh => x.tanh(),
                Op::Pow => x.powf(y),
                Op::Log2 => x.log2(),
                Op::Exp => x.exp(),
                Op::Floor => x.floor(),
                Op::Ceil => x.ceil(),
                Op::Round => x.round(),
                Op::Fract => x.fract(),
                Op::FromInt => a as i64 as f64,
                Op::FromUint => a as f64,
                Op::ToInt => return x as i64 as u64,
                Op::ToUint => return x as u64,
                Op::Convert => return (x as f32).to_bits() as u64,
            };
            r.to_bits()
        }
    } };
    Calc { run: native }
}

fn s(x: f32) -> F32 {
    F32 { bits: x.to_bits() }
}

fn d(x: f64) -> F64 {
    F64 { bits: x.to_bits() }
}

fn f(x: F32) -> f32 {
    f32::from_bits(x.bits)
}

fn g(x: F64) -> f64 {
    f64::from_bits(x.bits)
}

fn project() -> Project {
    let c = calc();
    let mut p = Project { bpm: d(120.0), width: 16, height: 16, ..Default::default() };
    let rate = p.sample_rate;
    let sid = p.add_source(Source {
        name: "s".to_string(),
        audio: Some(Arc::new(AudioClip::saw_stack(&c, s(110.0), s(2.0), rate))),
        video: None,
        base_hz: s(110.0),
    });
    let t = p.add_track("t");
    p.tracks[t].clips.push(Clip::new_snippet(sid, d(0.0), d(4.0)));
    p
}

fn numbers(v: &[F32]) -> Vec<f32> {
    v.iter().map(|x| f(*x)).collect()
}

#[test]
fn what_is_sent_arrives_in_order() {
    let c = calc();
    let (mut tx, mut rx) = open_ring();
    let mut feeder = Feeder::new(&c, project(), 48000);
    feeder.command(&c, TransportCmd::Play { start_beat: d(0.0), loop_region: None });
    assert!(loop_is_playable(&c, &feeder.engine.project, feeder.engine.loop_region));
    feeder.advance(&c);
    let block = feeder.pending.clone();
    assert_eq!(block.len(), 2 * BLOCK);
    assert!(feeder.feed(&mut tx));
    assert!(feeder.pending.is_empty());
    let (got, frames) = fill_from_ring(&c, &mut rx, 2 * BLOCK, 2);
    assert_eq!(frames, BLOCK as u64);
    assert_eq!(got, block);
    assert!(numbers(&got).iter().any(|x| x.abs() > 0.01));
    let (got, frames) = fill_from_ring(&c, &mut rx, 8, 2);
    assert_eq!((numbers(&got), frames), (vec![0.0; 8], 0));
}

#[test]
fn a_full_ring_keeps_the_rest_pending() {
    let c = calc();
    let (mut tx, mut rx) = open_ring();
    let mut feeder = Feeder::new(&c, project(), 48000);
    let all: Vec<F32> = (0..RING_CAPACITY + 6).map(|i| s(i as f32)).collect();
    feeder.pending = all.clone();
    assert!(!feeder.feed(&mut tx));
    assert_eq!(numbers(&feeder.pending), numbers(&all[RING_CAPACITY..]));
    feeder.advance(&c);
    assert_eq!(feeder.pending.len(), 6);
    fill_from_ring(&c, &mut rx, 100, 2);
    assert!(feeder.feed(&mut tx));
}

#[test]
fn one_channel_gets_the_mean() {
    let c = calc();
    let (mut tx, mut rx) = open_ring();
    let mut feeder = Feeder::new(&c, project(), 48000);
    feeder.pending = vec![s(1.0), s(0.0), s(0.5), s(0.5), s(0.25)];
    feeder.feed(&mut tx);
    let (got, frames) = fill_from_ring(&c, &mut rx, 4, 1);
    assert_eq!((numbers(&got), frames), (vec![0.5, 0.5, 0.0, 0.0], 2));
    feeder.pending = vec![s(1.0), s(2.0)];
    feeder.feed(&mut tx);
    let (got, _) = fill_from_ring(&c, &mut rx, 4, 4);
    assert_eq!(numbers(&got), vec![1.0, 2.0, 0.0, 0.0]);
}

#[test]
fn an_equal_rate_passes_the_engine_through() {
    let c = calc();
    let mut feeder = Feeder::new(&c, project(), 48000);
    feeder.command(&c, TransportCmd::Play { start_beat: d(1.0), loop_region: None });
    feeder.advance(&c);
    let mut rt = RealtimeAudio::new(&c, project(), d(1.0), None);
    let (mut l, mut r) = (vec![s(0.0); BLOCK], vec![s(0.0); BLOCK]);
    rt.next_block(&c, &mut l, &mut r);
    for i in 0..BLOCK - 1 {
        assert_eq!(f(feeder.pending[2 * i + 2]), f(l[i]));
        assert_eq!(f(feeder.pending[2 * i + 3]), f(r[i]));
    }
}

#[test]
fn edits_keep_the_beat() {
    let c = calc();
    let mut feeder = Feeder::new(&c, project(), 44100);
    feeder.command(&c, TransportCmd::Play { start_beat: d(2.0), loop_region: None });
    feeder.refresh(&c, Some(Project { bpm: d(60.0), ..project() }), Some((d(0.0), d(4.0))));
    assert!((g(feeder.engine.playhead_beats(&c)) - 2.0).abs() < 1e-6);
    assert!(feeder.engine.transport);
    feeder.refresh(&c, None, None);
    assert!(feeder.engine.loop_region.is_none());
    feeder.command(&c, TransportCmd::Stop);
    assert!(!feeder.engine.transport);
}

#[test]
fn pads_sound_from_now_on() {
    let c = calc();
    let mut feeder = Feeder::new(&c, project(), 48000);
    let ev = GrainEvent {
        onset: d(99.0),
        source_pos: d(0.5),
        duration: s(0.1),
        pitch_ratio: s(1.0),
        gain: s(1.0),
        pan: s(0.0),
        envelope: s(0.2),
        env_skew: s(0.0),
        reverse: false,
        id: 0,
    };
    feeder.pads(&c, &vec![(0, ev)]);
    assert_eq!(g(feeder.engine.live[0].event.onset), 0.0);
    feeder.advance(&c);
    assert!(numbers(&feeder.pending).iter().any(|x| x.abs() > 0.01));
}

#[test]
fn resampling_block_by_block_is_one_stream() {
    let c = calc();
    let xs: Vec<F32> = (0..50).map(|i| s((i as f32 * 0.3).sin())).collect();
    let fresh = Resampler { ratio: d(0.75), frac: d(0.0), prev: (s(0.0), s(0.0)) };
    let mut whole = fresh;
    let one = whole.resample(&c, &xs, &xs);
    let mut parts = fresh;
    let mut two = parts.resample(&c, &xs[..20].to_vec(), &xs[..20].to_vec());
    two.extend(parts.resample(&c, &xs[20..].to_vec(), &xs[20..].to_vec()));
    assert_eq!(one, two);
    assert_eq!(one.len(), 2 * 67);
    assert_eq!(numbers(&one[4..6]), vec![f(xs[0]) * 0.5 + f(xs[1]) * 0.5; 2]);
}

#[test]
fn loops_must_hold_a_sample() {
    let c = calc();
    let p = project();
    assert!(loop_is_playable(&c, &p, None));
    assert!(loop_is_playable(&c, &p, Some((d(0.0), d(1.0)))));
    assert!(loop_is_playable(&c, &p, Some((d(1.0), d(1.0)))));
    assert!(!loop_is_playable(&c, &p, Some((d(0.0), d(1e-9)))));
}

#[test]
fn the_playhead_is_folded_into_the_loop() {
    let c = calc();
    let p = project();
    assert_eq!(g(played_secs(&c, 24000, 48000)), 0.5);
    assert_eq!(g(playhead_secs(&c, &p, d(1.0), d(0.5), None)), 1.5);
    let region = Some((d(2.0), d(4.0)));
    assert_eq!(g(playhead_secs(&c, &p, d(0.0), d(0.5), region)), 0.5);
    assert_eq!(g(playhead_secs(&c, &p, d(1.0), d(1.25), region)), 1.25);
}

#[test]
fn a_bounce_plays_to_its_end() {
    let c = calc();
    let mut b = Bounce::new(48000);
    let buffer = StereoBuffer {
        left: vec![s(0.1), s(0.2), s(0.3)],
        right: vec![s(0.4), s(0.5), s(0.6)],
        sample_rate: 48000,
    };
    b.set_buffer(&c, &buffer);
    assert_eq!(numbers(&b.samples), vec![0.1, 0.4, 0.2, 0.5, 0.3, 0.6]);
    assert!(!b.is_playing());
    assert_eq!(numbers(&b.fill(&c, 4, 2)), vec![0.0; 4]);
    b.play_from(&c, d(1.0 / 48000.0));
    assert!(b.is_playing());
    assert_eq!(numbers(&b.fill(&c, 2, 2)), vec![0.2, 0.5]);
    assert_eq!(g(b.position_secs(&c)), 2.0 / 48000.0);
    assert_eq!(numbers(&b.fill(&c, 4, 2)), vec![0.3, 0.6, 0.0, 0.0]);
    assert!(!b.is_playing());
    b.play_from(&c, d(0.0));
    b.stop();
    assert!(!b.is_playing());
    let mut half = Bounce::new(24000);
    half.set_buffer(&c, &StereoBuffer { sample_rate: 48000, ..buffer });
    assert_eq!(numbers(&half.samples), vec![0.1, 0.4]);
}
