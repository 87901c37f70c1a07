#![allow(dead_code)]
use chromagrain::calc::{Calc, Op, Width};
use chromagrain::num::{F32, F64};
use chromagrain::audio::AudioClip;
use chromagrain::dsp::detect_pitch;
use chromagrain::stretch::{clamp_factor, paulstretch, paulstretch_source, stretch_video};
use chromagrain::synth::{
    centroid_hz, fm_source, freq_to_hue, hue_to_freq, noise_source, render_fm, render_noise,
    scope_video,
};
use chromagrain::timeline::Source;
use chromagrain::video::{Frame, VideoClip};
use std::sync::Arc;

fn calc() -> Calc<impl Fn(Op, Width, u64, u64) -> u64> {
    let native = |o: Op, w: Width, a: u64, b: u64| -> u64 { match w {
        Width::Single => {
            let x = f32::from_bits(a as u32);
            let y = f32::from_bits(b as u32);
            let r = match o {
                Op::Add => x + y,
                Op::Sub => x - y,
                Op::Mul => x * y,
                Op::Div => x / y,
                Op::Rem => x % y,
                Op::RemEuclid => x.rem_euclid(y),
                Op::Sqrt => x.sqrt(),
                Op::Sin => x.sin(),
                Op::Cos => x.cos(),
                Op::Tanh => x.tanh(),
                Op::Pow => x.powf(y),
                Op::Log2 => x.log2(),
                Op::Exp => x.exp(),
                Op::Floor => x.floor(),
                Op::Ceil => x.ceil(),
                Op::Round => x.round(),
                Op::Fract => x.fract(),
                Op::FromInt => a as i64 as f32,
                Op::FromUint => a as f32,
                Op::ToInt => return x as i64 as u64,
                Op::ToUint => return x as u64,
                Op::Convert => return (x as f64).to_bits(),
            };
            r.to_bits() as u64
        }
        Width::Double => {
            let x = f64::from_bits(a);
            let y = f64::from_bits(b);
            let r = match o {
                Op::Add => x + y,
                Op::Sub => x - y,
                Op::Mul => x * y,
                Op::Div => x / y,
                Op::Rem => x % y,
                Op::RemEuclid => x.rem_euclid(y),
                Op::Sqrt => x.sqrt(),
                Op::Sin => x.sin(),
                Op::Cos => x.cos(),
                Op::Tanh => x.tanh(),
                Op::Pow => x.powf(y),
                Op::Log2 => x.log2(),
                Op::Exp => x.exp(),
                Op::Floor => x.floor(),
                Op::Ceil => x.ceil(),
                Op::Round => x.round(),
                Op::Fract => x.fract(),
                Op::FromInt => a as i64 as f64,
                Op::FromUint => a as f64,
                Op::ToInt => return x as i64 as u64,
                Op::ToUint => return x as u64,
                Op::Convert => return (x as f32).to_bits() as u64,
            };
            r.to_bits()
        }
    } };
    Calc { run: native }
}

fn s(x: f32) -> F32 {
    F32 { bits: x.to_bits() }
}

fn d(x: f64) -> F64 {
    F64 { bits: x.to_bits() }
}

fn f(x: F32) -> f32 {
    f32::from_bits(x.bits)
}

fn g(x: F64) -> f64 {
    f64::from_bits(x.bits)
}

#[test]
fn hue_freq_mapping_roundtrips() {
    let c = calc();
    for hz in [80.0, 440.0, 2000.0, 7000.0] {
        let hue = freq_to_hue(&c, s(hz));
        assert!((f(hue_to_freq(&c, hue)) - hz).abs() / hz < 0.01);
    }
    assert!(f(hue_to_freq(&c, s(0.0))) < 100.0);
    assert!(f(hue_to_freq(&c, s(300.0))) > 2000.0);
}

#[test]
fn fm_holds_its_fundamental() {
    let c = calc();
    let sr = 48000;
    let clip = render_fm(&c, s(220.0), s(2.0), s(1.2), s(1.0), sr);
    let pitch = f(detect_pitch(&c, &clip.samples, sr).expect("pitch"));
    assert!((pitch - 220.0).abs() < 8.0, "fm fundamental: {pitch}");
    let dull = render_fm(&c, s(220.0), s(2.0), s(0.2), s(1.0), sr);
    let mid = |x: &AudioClip| f(centroid_hz(&c, &x.samples[8000..8000 + 2048], s(sr as f32)));
    assert!(mid(&clip) > mid(&dull) * 1.2, "index brightens the spectrum");
}

#[test]
fn noise_color_tilts_the_spectrum() {
    let c = calc();
    let sr = 48000;
    let white = render_noise(&c, s(0.0), s(1.0), sr);
    let brown = render_noise(&c, s(1.0), s(1.0), sr);
    let hf = |x: &AudioClip| -> f32 {
        let v: Vec<f32> = x.samples[4800..43200].iter().map(|y| f(*y)).collect();
        let rms: f32 = (v.iter().map(|x| x * x).sum::<f32>() / v.len() as f32).sqrt();
        let diff: f32 = v.windows(2).map(|w| (w[1] - w[0]).powi(2)).sum::<f32>()
            / (v.len() - 1) as f32;
        diff.sqrt() / rms.max(1e-9)
    };
    assert!(hf(&white) > hf(&brown) * 3.0, "white {} vs brown {}", hf(&white), hf(&brown));
}

#[test]
fn scope_video_reflects_the_signal() {
    let c = calc();
    let sr = 48000;
    let low = render_fm(&c, s(100.0), s(1.0), s(0.3), s(0.5), sr);
    let noise = render_noise(&c, s(0.0), s(0.5), sr);
    let v_low = scope_video(&c, &low, 64, 36, s(12.0));
    let v_noise = scope_video(&c, &noise, 64, 36, s(12.0));
    assert!(!v_low.frames.is_empty() && !v_noise.frames.is_empty());
    let mid_l = &v_low.frames[v_low.frames.len() / 2];
    let mid_n = &v_noise.frames[v_noise.frames.len() / 2];
    assert!(f(mid_l.mean_luma(&c)) > 2.0, "scope draws something");
    let tint = |x: &Frame| -> (f64, f64) {
        let (mut r, mut b) = (0.0f64, 0.0f64);
        for px in x.data.chunks_exact(4) {
            r += px[0] as f64;
            b += px[2] as f64;
        }
        (r, b)
    };
    let (lr, lb) = tint(mid_l);
    let (nr, nb) = tint(mid_n);
    assert!(
        lr / lb.max(1.0) > nr / nb.max(1.0),
        "low tone redder than white noise: {} vs {}",
        lr / lb.max(1.0),
        nr / nb.max(1.0)
    );
}

#[test]
fn synth_sources_are_complete() {
    let c = calc();
    let x = fm_source(&c, s(110.0), s(1.5), s(1.0), s(2.0), 48000);
    assert!(x.audio.is_some() && x.video.is_some());
    assert_eq!(f(x.base_hz), 110.0);
    assert!(g(x.duration(&c)) > 1.5);
    assert_eq!(x.name, "fm 110Hz x1.50 i1.0");
    let n = noise_source(&c, s(0.7), s(1.0), 48000);
    assert!(n.audio.is_some() && n.video.is_some());
    assert_eq!(n.name, "noise c0.70");
}

#[test]
fn the_axis_ends_at_violet() {
    let c = calc();
    assert_eq!(f(freq_to_hue(&c, s(20.0))), 0.0);
    assert_eq!(f(freq_to_hue(&c, s(1e6))), 330.0);
    assert_eq!(f(hue_to_freq(&c, s(-5.0))), 80.0);
    assert_eq!(f(hue_to_freq(&c, s(400.0))), f(hue_to_freq(&c, s(330.0))));
}

#[test]
fn silence_has_no_centroid() {
    let c = calc();
    assert_eq!(f(centroid_hz(&c, &vec![s(0.0); 100], s(48000.0))), 0.0);
}

fn sine(hz: f32, secs: f32, sr: u32) -> AudioClip {
    let n = (secs * sr as f32) as usize;
    let samples = (0..n)
        .map(|i| s((2.0 * std::f32::consts::PI * hz * i as f32 / sr as f32).sin() * 0.5))
        .collect();
    AudioClip::new(samples, sr)
}

#[test]
fn stretch_multiplies_duration() {
    let c = calc();
    let clip = sine(220.0, 1.0, 44100);
    let out = paulstretch(&c, &clip, s(8.0));
    let ratio = g(out.duration(&c)) / g(clip.duration(&c));
    assert!((ratio - 8.0).abs() < 0.2, "duration ratio {ratio}");
}

#[test]
fn stretch_preserves_pitch() {
    let c = calc();
    let sr = 44100;
    let clip = sine(220.0, 1.0, sr);
    let out = paulstretch(&c, &clip, s(8.0));
    let mid = out.samples.len() / 2;
    let win = out.samples[mid..mid + 16384].to_vec();
    let hz = f(detect_pitch(&c, &win, sr).expect("pitch should be detectable in the wash"));
    assert!((hz - 220.0).abs() < 12.0, "expected ~220Hz after stretch, got {hz}");
}

#[test]
fn stretch_level_is_sane() {
    let c = calc();
    let clip = sine(110.0, 0.5, 44100);
    let out = paulstretch(&c, &clip, s(4.0));
    let rms = (out.samples.iter().map(|x| f(*x) * f(*x)).sum::<f32>()
        / out.samples.len() as f32)
        .sqrt();
    assert!(rms > 0.05 && rms < 0.9, "rms {rms}");
    assert!(out.samples.iter().all(|x| f(*x).abs() <= 1.0));
}

#[test]
fn stretch_is_deterministic() {
    let c = calc();
    let clip = sine(330.0, 0.3, 22050);
    let a = paulstretch(&c, &clip, s(4.0));
    let b = paulstretch(&c, &clip, s(4.0));
    assert_eq!(a.samples, b.samples);
}

#[test]
fn video_stretch_tracks_source_time() {
    let c = calc();
    let mut frames = Vec::new();
    for i in 0..10 {
        let mut x = Frame::black(8, 8);
        let v = (i as f32 / 9.0 * 255.0) as u8;
        for p in x.data.chunks_mut(4) {
            p[0] = v;
            p[1] = v;
            p[2] = v;
            p[3] = 255;
        }
        frames.push(x);
    }
    let clip = VideoClip { frames, fps: s(10.0) };
    let out = stretch_video(&c, &clip, s(4.0));
    let dur = g(out.duration(&c));
    assert!((dur - 4.0).abs() < 0.3, "dur {dur}");
    let luma = |x: &Frame| {
        x.data.chunks(4).map(|p| p[0] as f32).sum::<f32>() / (x.data.len() / 4) as f32
    };
    let l = luma(&out.frames[24]);
    assert!((l - 127.0).abs() < 40.0, "mid-wash luma {l}");
    let first = luma(&out.frames[0]);
    let last = luma(out.frames.last().unwrap());
    assert!(last > first + 100.0, "wash should brighten {first} -> {last}");
}

#[test]
fn source_derivation_keeps_base_hz_and_stretches_both() {
    let c = calc();
    let src = Source {
        name: "clip".to_string(),
        audio: Some(Arc::new(sine(220.0, 0.5, 22050))),
        video: Some(Arc::new(VideoClip { frames: vec![Frame::black(4, 4); 5], fps: s(10.0) })),
        base_hz: s(220.0),
    };
    let out = paulstretch_source(&c, &src, s(4.0));
    assert_eq!(f(out.base_hz), 220.0);
    assert!(out.name.contains("paul"));
    assert_eq!(out.name, "paul x4 clip");
    let a = out.audio.as_ref().unwrap();
    assert!((g(a.duration(&c)) / 0.5 - 4.0).abs() < 0.3);
    let v = out.video.as_ref().unwrap();
    assert!((g(v.duration(&c)) - 2.0).abs() < 0.3);
}

#[test]
fn factors_are_kept_within_bounds() {
    assert_eq!(f(clamp_factor(s(1.0))), 2.0);
    assert_eq!(f(clamp_factor(s(1000.0))), 64.0);
    assert_eq!(f(clamp_factor(s(f32::NAN))), 8.0);
    assert_eq!(f(clamp_factor(s(f32::INFINITY))), 8.0);
    assert_eq!(f(clamp_factor(s(5.5))), 5.5);
}

#[test]
fn stretching_nothing_gives_nothing() {
    let c = calc();
    let out = paulstretch(&c, &AudioClip::new(vec![], 0), s(4.0));
    assert_eq!((out.samples.len(), out.sample_rate), (0, 1));
    let v = stretch_video(&c, &VideoClip { frames: vec![], fps: s(10.0) }, s(4.0));
    assert_eq!(v.frames.len(), 0);
    let tiny = paulstretch(&c, &AudioClip::new(vec![s(0.5)], 1000), s(2.0));
    assert_eq!(tiny.samples.len(), 256);
}

#[test]
fn stretched_clips_have_the_length_in_samples() {
    let c = calc();
    let clip = sine(220.0, 0.1, 8000);
    let out = paulstretch(&c, &clip, s(3.5));
    assert_eq!((out.samples.len(), out.sample_rate), (2800, 8000));
    assert_eq!(paulstretch(&c, &clip, s(0.5)).samples.len(), 1600);
    let long = AudioClip::new(vec![s(0.25); 900], 100);
    assert_eq!(paulstretch(&c, &long, s(64.0)).samples.len(), 18000);
}

#[test]
fn soft_clips_are_stretched_within_range() {
    let c = calc();
    for level in [0.0f32, 1e-12, 1e-10, 9e-10] {
        let samples: Vec<F32> =
            (0..4000).map(|i| s(level * if i % 3 == 0 { 1.0 } else { -1.0 })).collect();
        let out = paulstretch(&c, &AudioClip::new(samples, 8000), s(3.0));
        assert_eq!(out.samples.len(), 12000);
        assert!(out.samples.iter().all(|x| f(*x).abs() <= 1.0 && f(*x).abs() < 1e-6));
    }
    // One loud sample among many silent ones is not next to silent.
    let mut samples = vec![s(0.0); 4000];
    samples[2000] = s(1e10);
    let out = paulstretch(&c, &AudioClip::new(samples, 8000), s(2.0));
    assert!(out.samples.iter().all(|x| f(*x).abs() <= 1.0));
}

#[test]
fn stretched_frames_have_their_own_size() {
    let c = calc();
    let long = Frame { width: 1, height: 1, data: vec![10, 20, 30, 40, 50, 60, 70, 80] };
    let out = stretch_video(&c, &VideoClip { frames: vec![long], fps: s(1.0) }, s(2.0));
    assert!(!out.frames.is_empty());
    assert!(out.frames.iter().all(|x| x.data == vec![10, 20, 30, 255]));

    let short = Frame { width: 2, height: 1, data: vec![10, 20, 30, 40, 50] };
    let out = stretch_video(&c, &VideoClip { frames: vec![short], fps: s(1.0) }, s(2.0));
    assert!(out.frames.iter().all(|x| x.data == vec![10, 20, 30, 255, 50, 0, 0, 255]));
}
