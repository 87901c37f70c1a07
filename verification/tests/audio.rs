#![allow(dead_code)]
use chromagrain::calc::{Calc, Op, Width};
use chromagrain::num::{F32, F64};
use chromagrain::audio::{render_grains_audio, AudioClip, StereoBuffer};
use chromagrain::dsp::detect_pitch;
use chromagrain::grain::{schedule_grains, GrainEvent, GrainSettings};

fn calc() -> Calc<impl Fn(Op, Width, u64, u64) -> u64> {
    let native = |o: Op, w: Width, a: u64, b: u64| -> u64 { match w {
        Width::Single => {
            let x = f32::from_bits(a as u32);
            let y = f32::from_bits(b as u32);
            let r = match o {
                Op::Add => x + y,
                Op::Sub => x - y,
                Op::Mul => x * y,
                Op::Div => x / y,
                Op::Rem => x % y,
                Op::RemEuclid => x.rem_euclid(y),
                Op::Sqrt => x.sqrt(),
                Op::Sin => x.sin(),
                Op::Cos => x.cos(),
                Op::Tanh => x.tanh(),
                Op::Pow => x.powf(y),
                Op::Log2 => x.log2(),
                Op::Exp => x.exp(),
                Op::Floor => x.floor(),
                Op::Ceil => x.ceil(),
                Op::Round => x.round(),
                Op::Fract => x.fract(),
                Op::FromInt => a as i64 as f32,
                Op::FromUint => a as f32,
                Op::ToInt => return x as i64 as u64,
                Op::ToUint => return x as u64,
                Op::Convert => return (x as f64).to_bits(),
            };
            r.to_bits() as u64
        }
        Width::Double => {
            let x = f64::from_bits(a);
            let y = f64::from_bits(b);
            let r = match o {
                Op::Add => x + y,
                Op::Sub => x - y,
                Op::Mul => x * y,
                Op::Div => x / y,
                Op::Rem => x % y,
                Op::RemEuclid => x.rem_euclid(y),
                Op::Sqrt => x.sqrt(),
                Op::Sin => x.sin(),
                Op::Cos => x.cos(),
                Op::Tanh => x.tanh(),
                Op::Pow => x.powf(y),
                Op::Log2 => x.log2(),
                Op::Exp => x.exp(),
                Op::Floor => x.floor(),
                Op::Ceil => x.ceil(),
                Op::Round => x.round(),
                Op::Fract => x.fract(),
                Op::FromInt => a as i64 as f64,
                Op::FromUint => a as f64,
                Op::ToInt => return x as i64 as u64,
                Op::ToUint => return x as u64,
                Op::Convert => return (x as f32).to_bits() as u64,
            };
            r.to_bits()
        }
    } };
    Calc { run: native }
}

fn s(x: f32) -> F32 {
    F32 { bits: x.to_bits() }
}

fn d(x: f64) -> F64 {
    F64 { bits: x.to_bits() }
}

fn f(x: F32) -> f32 {
    f32::from_bits(x.bits)
}

fn g(x: F64) -> f64 {
    f64::from_bits(x.bits)
}

#[test]
fn granular_render_produces_signal() {
    let c = calc();
    let clip = AudioClip::sine(&c, s(440.0), s(2.0), 48000);
    let settings = GrainSettings { density: s(30.0), ..Default::default() };
    let events =
        schedule_grains(&c, &settings, d(0.0), d(1.0), clip.duration(&c), s(440.0), None);
    let mut out = StereoBuffer::new(&c, d(1.5), 48000);
    render_grains_audio(&c, &clip, &events, &mut out, d(0.0));
    assert!(f(out.rms(&c)) > 0.01, "render should be audible, rms={}", f(out.rms(&c)));
    assert!(f(out.peak()).is_finite());
}

#[test]
fn empty_events_render_silence() {
    let c = calc();
    let clip = AudioClip::sine(&c, s(440.0), s(1.0), 48000);
    let mut out = StereoBuffer::new(&c, d(1.0), 48000);
    render_grains_audio(&c, &clip, &vec![], &mut out, d(0.0));
    assert_eq!(f(out.rms(&c)), 0.0);
}

#[test]
fn pitch_ratio_transposes() {
    let c = calc();
    let sr = 48000;
    let clip = AudioClip::sine(&c, s(220.0), s(3.0), sr);
    let ev = GrainEvent {
        onset: d(0.0),
        source_pos: d(0.5),
        duration: s(1.0),
        pitch_ratio: s(2.0),
        gain: s(1.0),
        pan: s(0.0),
        envelope: s(0.2),
        env_skew: s(0.0),
        reverse: false,
        id: 0,
    };
    let mut out = StereoBuffer::new(&c, d(1.0), sr);
    render_grains_audio(&c, &clip, &vec![ev], &mut out, d(0.0));
    let mono: Vec<F32> =
        out.left.iter().zip(&out.right).map(|(l, r)| s(f(*l) + f(*r))).collect();
    let pitch = f(detect_pitch(&c, &mono, sr).expect("pitch"));
    assert!((pitch - 440.0).abs() < 15.0, "got {pitch}");
}

#[test]
fn soft_clip_bounds_output() {
    let c = calc();
    let mut out = StereoBuffer::new(&c, d(0.1), 48000);
    for x in out.left.iter_mut() {
        *x = s(5.0);
    }
    out.soft_clip(&c);
    assert!(f(out.peak()) <= 1.0001);
}

#[test]
fn a_buffer_has_the_samples_of_its_length() {
    let c = calc();
    let mut out = StereoBuffer::new(&c, d(0.5), 1000);
    assert_eq!(out.len(), 500);
    assert!(!out.is_empty());
    assert_eq!(g(out.duration(&c)), 0.5);
    out.left[3] = s(0.25);
    out.right[3] = s(-0.5);
    let both = out.interleaved();
    assert_eq!(both.len(), 1000);
    assert_eq!((f(both[6]), f(both[7])), (0.25, -0.5));
    assert_eq!(f(out.peak()), 0.5);
    let want = ((0.25f32 * 0.25 + 0.5 * 0.5) / 1000.0).sqrt();
    assert_eq!(f(out.rms(&c)), want);
}

#[test]
fn reading_between_samples_interpolates() {
    let c = calc();
    let clip = AudioClip::new(vec![s(0.0), s(1.0), s(0.0)], 10);
    assert_eq!(f(clip.sample_lerp(&c, d(0.25))), 0.25);
    assert_eq!(f(clip.sample_lerp(&c, d(1.5))), 0.5);
    assert_eq!(f(clip.sample_lerp(&c, d(2.0))), 0.0);
    assert_eq!(f(clip.sample_lerp(&c, d(-1.0))), 0.0);
}

#[test]
fn soft_clipping_stays_in_range() {
    let c = calc();
    let mut out = StereoBuffer::new(&c, d(0.01), 1000);
    let loud = [0.0, -0.0, 0.999, 1.0, 1.0000001, 1.5, 2.0, 10.0, f32::MAX, f32::INFINITY];
    for (i, x) in loud.iter().enumerate() {
        out.left[i] = s(*x);
        out.right[i] = s(-*x);
    }
    out.soft_clip(&c);
    assert!(out.left.iter().chain(&out.right).all(|x| f(*x).abs() <= 1.0));
    assert_eq!(f(out.left[0]), 0.0);
    assert_eq!(f(out.right[6]), (-2.0f32).tanh());
}
