#![allow(dead_code)]
use chromagrain::calc::{Calc, Op, Width};
use chromagrain::num::{F32, F64};
use chromagrain::audio::AudioClip;
use chromagrain::fx::{AvEffect, EffectKind};
use chromagrain::grain::GrainEvent;
use chromagrain::realtime::RealtimeAudio;
use chromagrain::render::render_project;
use chromagrain::seq::StepPattern;
use chromagrain::timeline::{Clip, Project, Source};
use chromagrain::video::VideoClip;
use std::sync::Arc;

fn calc() -> Calc<impl Fn(Op, Width, u64, u64) -> u64> {
    let native = |o: Op, w: Width, a: u64, b: u64| -> u64 { match w {
        Width::Single => {
            let x = f32::from_bits(a as u32);
            let y = f32::from_bits(b as u32);
            let r = match o {
                Op::Add => x + y,
                Op::Sub => x - y,
                Op::Mul => x * y,
                Op::Div => x / y,
                Op::Rem => x % y,
                Op::RemEuclid => x.rem_euclid(y),
                Op::Sqrt => x.sqrt(),
                Op::Sin => x.sin(),
                Op::Cos => x.cos(),
                Op::Tanh => x.tanh(),
                Op::Pow => x.powf(y),
                Op::Log2 => x.log2(),
                Op::Exp => x.exp(),
                Op::Floor => x.floor(),
                Op::Ceil => x.ceil(),
                Op::Round => x.round(),
                Op::Fract => x.fract(),
                Op::FromInt => a as i64 as f32,
                Op::FromUint => a as f32,
                Op::ToInt => return x as i64 as u64,
                Op::ToUint => return x as u64,
                Op::Convert => return (x as f64).to_bits(),
            };
            r.to_bits() as u64
        }
        Width::Double => {
            let x = f64::from_bits(a);
            let y = f64::from_bits(b);
            let r = match o {
                Op::Add => x + y,
                Op::Sub => x - y,
                Op::Mul => x * y,
                Op::Div => x / y,
                Op::Rem => x % y,
                Op::RemEuclid => x.rem_euclid(y),
                Op::Sqrt => x.sqrt(),
                Op::Sin => x.sin(),
                Op::Cos => x.cos(),
                Op::Tanh => x.tanh(),
                Op::Pow => x.powf(y),
                Op::Log2 => x.log2(),
                Op::Exp => x.exp(),
                Op::Floor => x.floor(),
                Op::Ceil => x.ceil(),
                Op::Round => x.round(),
                Op::Fract => x.fract(),
                Op::FromInt => a as i64 as f64,
                Op::FromUint => a as f64,
                Op::ToInt => return x as i64 as u64,
                Op::ToUint => return x as u64,
                Op::Convert => return (x as f32).to_bits() as u64,
            };
            r.to_bits()
        }
    } };
    Calc { run: native }
}

fn s(x: f32) -> F32 {
    F32 { bits: x.to_bits() }
}

fn d(x: f64) -> F64 {
    F64 { bits: x.to_bits() }
}

fn f(x: F32) -> f32 {
    f32::from_bits(x.bits)
}

fn g(x: F64) -> f64 {
    f64::from_bits(x.bits)
}

fn perf_project() -> Project {
    let c = calc();
    let mut p = Project {
        bpm: d(120.0),
        width: 32,
        height: 24,
        fps: s(12.0),
        ..Default::default()
    };
    let rate = p.sample_rate;
    let sid = p.add_source(Source {
        name: "s".to_string(),
        audio: Some(Arc::new(AudioClip::saw_stack(&c, s(110.0), s(3.0), rate))),
        video: Some(Arc::new(VideoClip::test_pattern(&c, 32, 24, s(12.0), s(2.0)))),
        base_hz: s(110.0),
    });
    let t0 = p.add_track("grains");
    let mut clip = Clip::new(sid, d(0.0), d(4.0));
    clip.grains.density = s(15.0);
    clip.effects.push(AvEffect::new(EffectKind::Delay {
        time: s(0.21),
        feedback: s(0.4),
        mix: s(0.5),
        shift_x: s(0.0),
        shift_y: s(0.0),
    }));
    p.tracks[t0].clips.push(clip);
    let t1 = p.add_track("bed");
    let mut bed = Clip::new_snippet(sid, d(1.0), d(3.0));
    bed.grains.gain = s(0.5);
    p.tracks[t1].clips.push(bed);
    p.tracks[t1].effects.push(AvEffect::new(EffectKind::Reverb {
        size: s(0.6),
        damp: s(0.3),
        mix: s(0.4),
    }));
    p.tracks[t1].level = s(0.8);
    let mut pat = StepPattern::new("hits");
    let r = pat.add_row(&c, sid);
    for i in (0..16).step_by(4) {
        pat.rows[r].steps[i].on = true;
    }
    let pid = p.add_pattern(pat);
    let t2 = p.add_track("seq");
    p.tracks[t2].clips.push(Clip::new_pattern(pid, d(0.0), d(4.0)));
    p.master_effects
        .push(AvEffect::new(EffectKind::Crush { downsample: s(3.0), bits: s(8.0) }));
    p
}

fn play(rt: &mut RealtimeAudio, n: usize) -> (Vec<F32>, Vec<F32>) {
    let mut l = vec![s(0.0); n];
    let mut r = vec![s(0.0); n];
    rt.next_block(&calc(), &mut l, &mut r);
    (l, r)
}

fn energy(x: &[F32]) -> f32 {
    x.iter().map(|v| f(*v) * f(*v)).sum()
}

#[test]
fn realtime_stream_matches_offline_render() {
    let c = calc();
    let p = perf_project();
    let offline = render_project(&c, &p, d(0.0), d(4.0));
    let total = offline.audio.len();

    let mut rt = RealtimeAudio::new(&c, p, d(0.0), None);
    let mut left: Vec<F32> = Vec::new();
    let mut right: Vec<F32> = Vec::new();
    let sizes = [512usize, 128, 2048, 733, 4096];
    let mut k = 0;
    while left.len() < total {
        let b = sizes[k % sizes.len()].min(total - left.len());
        let (l, r) = play(&mut rt, b);
        left.extend(l);
        right.extend(r);
        k += 1;
    }

    let mut max_diff = 0.0f32;
    for i in 0..total {
        max_diff = max_diff.max((f(left[i]) - f(offline.audio.left[i])).abs());
        max_diff = max_diff.max((f(right[i]) - f(offline.audio.right[i])).abs());
    }
    assert!(max_diff < 1e-5, "realtime == offline, max diff {max_diff}");
    let rms = (energy(&left) / total as f32).sqrt();
    assert!(rms > 0.01, "and it is not silence: {rms}");
}

#[test]
fn loop_region_wraps_playhead() {
    let c = calc();
    let p = perf_project();
    let sr = p.sample_rate as usize;
    let mut rt = RealtimeAudio::new(&c, p, d(0.0), Some((d(0.0), d(2.0))));
    let (l, _) = play(&mut rt, sr * 2 + 137);
    let beats = g(rt.playhead_beats(&c));
    assert!((0.0..2.0).contains(&beats), "playhead wrapped into loop: {beats}");
    assert!(energy(&l[sr..sr + 4800]) > 1e-6, "loop keeps sounding");
}

#[test]
fn seek_moves_playhead() {
    let c = calc();
    let mut rt = RealtimeAudio::new(&c, perf_project(), d(0.0), None);
    rt.seek_beats(&c, d(3.0));
    assert!((g(rt.playhead_beats(&c)) - 3.0).abs() < 1e-6);
    play(&mut rt, 1024);
    assert!(g(rt.playhead_beats(&c)) > 3.0);
}

#[test]
fn pads_sound_while_the_transport_stands() {
    let c = calc();
    let mut p = perf_project();
    p.master_effects.clear();
    let mut rt = RealtimeAudio::new(&c, p, d(0.0), None);
    rt.transport = false;
    let (quiet, _) = play(&mut rt, 2048);
    assert_eq!(energy(&quiet), 0.0);
    let now = rt.live_now_secs(&c);
    assert_eq!(g(now), 2048.0 / 48000.0);
    rt.trigger_live(
        0,
        GrainEvent {
            onset: now,
            source_pos: d(0.5),
            duration: s(0.05),
            pitch_ratio: s(1.0),
            gain: s(1.0),
            pan: s(0.0),
            envelope: s(0.2),
            env_skew: s(0.0),
            reverse: false,
            id: 0,
        },
    );
    let (hit, _) = play(&mut rt, 2048);
    assert!(energy(&hit) > 0.1);
    assert_eq!(g(rt.playhead_secs(&c)), 0.0);
    play(&mut rt, 4800);
    assert!(rt.live.is_empty());
}

#[test]
fn two_blocks_are_one_long_block() {
    let c = calc();
    let mut a = RealtimeAudio::new(&c, perf_project(), d(0.0), None);
    let mut b = RealtimeAudio::new(&c, perf_project(), d(0.0), None);
    let (whole, _) = play(&mut a, 3000);
    let (mut parts, _) = play(&mut b, 1100);
    parts.extend(play(&mut b, 1900).0);
    for (x, y) in whole.iter().zip(&parts) {
        assert_eq!(x.bits, y.bits);
    }
}

#[test]
fn silent_tracks_stream_as_they_render() {
    let c = calc();
    let mut p = perf_project();
    p.master_effects.clear();
    let seen = p.add_source(Source {
        name: "seen".to_string(),
        audio: None,
        video: Some(Arc::new(VideoClip::test_pattern(&c, 32, 24, s(12.0), s(2.0)))),
        base_hz: s(0.0),
    });
    let t3 = p.add_track("picture");
    p.tracks[t3].clips.push(Clip::new(seen, d(0.0), d(4.0)));
    p.tracks[t3].effects.push(AvEffect::new(EffectKind::Crush { downsample: s(2.0), bits: s(4.0) }));
    let t4 = p.add_track("empty");
    p.tracks[t4].effects.push(AvEffect::new(EffectKind::Reverb {
        size: s(0.6),
        damp: s(0.3),
        mix: s(0.4),
    }));
    let offline = render_project(&c, &p, d(0.0), d(2.0));
    let total = offline.audio.len();
    let mut rt = RealtimeAudio::new(&c, p, d(0.0), None);
    let mut left: Vec<F32> = Vec::new();
    let mut right: Vec<F32> = Vec::new();
    let sizes = [1usize, 977, 64, 3001];
    let mut k = 0;
    while left.len() < total {
        let b = sizes[k % sizes.len()].min(total - left.len());
        let (l, r) = play(&mut rt, b);
        left.extend(l);
        right.extend(r);
        assert_eq!(g(rt.playhead_secs(&c)), left.len() as f64 / 48000.0);
        k += 1;
    }
    for i in 0..total {
        assert_eq!(f(left[i]), f(offline.audio.left[i]), "left sample {i}");
        assert_eq!(f(right[i]), f(offline.audio.right[i]), "right sample {i}");
    }
    assert!(energy(&left) > 1.0);
}

#[test]
fn blocks_of_any_sizes_play_the_offline_render() {
    let c = calc();
    let p = perf_project();
    let out = render_project(&c, &p, d(0.0), d(2.0));
    let mut rt = RealtimeAudio::new(&c, p, d(0.0), None);
    let (mut l, mut r) = (Vec::new(), Vec::new());
    for n in [1, 7, 512, 333, 1024, 2, 4096, 9999] {
        let (a, b) = play(&mut rt, n);
        l.extend(a);
        r.extend(b);
    }
    assert_eq!(l[..], out.audio.left[..l.len()]);
    assert_eq!(r[..], out.audio.right[..r.len()]);
}
