#![allow(dead_code)]
use chromagrain::calc::{Calc, Op, Width};
use chromagrain::num::{F32, F64};
use chromagrain::auto::{automatable, param_range, settings_at, AutoPoint, AutomationLane};
use chromagrain::dsp::{
    apply_filter_chain, detect_pitch, grain_env, grain_env_skewed, Biquad, FilterKind, FilterSpec,
    Rng,
};
use chromagrain::fft::fft;
use chromagrain::grain::GrainSettings;

fn calc() -> Calc<impl Fn(Op, Width, u64, u64) -> u64> {
    let native = |o: Op, w: Width, a: u64, b: u64| -> u64 { match w {
        Width::Single => {
            let x = f32::from_bits(a as u32);
            let y = f32::from_bits(b as u32);
            let r = match o {
                Op::Add => x + y,
                Op::Sub => x - y,
                Op::Mul => x * y,
                Op::Div => x / y,
                Op::Rem => x % y,
                Op::RemEuclid => x.rem_euclid(y),
                Op::Sqrt => x.sqrt(),
                Op::Sin => x.sin(),
                Op::Cos => x.cos(),
                Op::Tanh => x.tanh(),
                Op::Pow => x.powf(y),
                Op::Log2 => x.log2(),
                Op::Exp => x.exp(),
                Op::Floor => x.floor(),
                Op::Ceil => x.ceil(),
                Op::Round => x.round(),
                Op::Fract => x.fract(),
                Op::FromInt => a as i64 as f32,
                Op::FromUint => a as f32,
                Op::ToInt => return x as i64 as u64,
                Op::ToUint => return x as u64,
                Op::Convert => return (x as f64).to_bits(),
            };
            r.to_bits() as u64
        }
        Width::Double => {
            let x = f64::from_bits(a);
            let y = f64::from_bits(b);
            let r = match o {
                Op::Add => x + y,
                Op::Sub => x - y,
                Op::Mul => x * y,
                Op::Div => x / y,
                Op::Rem => x % y,
                Op::RemEuclid => x.rem_euclid(y),
                Op::Sqrt => x.sqrt(),
                Op::Sin => x.sin(),
                Op::Cos => x.cos(),
                Op::Tanh => x.tanh(),
                Op::Pow => x.powf(y),
                Op::Log2 => x.log2(),
                Op::Exp => x.exp(),
                Op::Floor => x.floor(),
                Op::Ceil => x.ceil(),
                Op::Round => x.round(),
                Op::Fract => x.fract(),
                Op::FromInt => a as i64 as f64,
                Op::FromUint => a as f64,
                Op::ToInt => return x as i64 as u64,
                Op::ToUint => return x as u64,
                Op::Convert => return (x as f32).to_bits() as u64,
            };
            r.to_bits()
        }
    } };
    Calc { run: native }
}

fn s(x: f32) -> F32 {
    F32 { bits: x.to_bits() }
}

fn d(x: f64) -> F64 {
    F64 { bits: x.to_bits() }
}

fn f(x: F32) -> f32 {
    f32::from_bits(x.bits)
}

fn g(x: F64) -> f64 {
    f64::from_bits(x.bits)
}

fn sine(freq: f32, secs: f32, sr: u32) -> Vec<F32> {
    let n = (secs * sr as f32) as usize;
    (0..n)
        .map(|i| s((2.0 * std::f32::consts::PI * freq * i as f32 / sr as f32).sin()))
        .collect()
}

fn rms(buf: &[F32]) -> f32 {
    (buf.iter().map(|x| f(*x) * f(*x)).sum::<f32>() / buf.len() as f32).sqrt()
}

#[test]
fn lowpass_attenuates_high_freq() {
    let c = calc();
    let sr = 48000;
    let mut hi = sine(8000.0, 0.5, sr);
    let mut lo = sine(200.0, 0.5, sr);
    let mut f1 = Biquad::new(&c, FilterKind::LowPass, s(sr as f32), s(1000.0), s(0.707));
    let mut f2 = Biquad::new(&c, FilterKind::LowPass, s(sr as f32), s(1000.0), s(0.707));
    f1.process_buffer(&c, &mut hi);
    f2.process_buffer(&c, &mut lo);
    let hi_rms = rms(&hi[4800..]);
    let lo_rms = rms(&lo[4800..]);
    assert!(hi_rms < 0.05, "8k through 1k LP should be crushed, rms={hi_rms}");
    assert!(lo_rms > 0.6, "200Hz through 1k LP should pass, rms={lo_rms}");
}

#[test]
fn bandpass_selects_band() {
    let c = calc();
    let sr = 48000;
    let mut inband = sine(1000.0, 0.5, sr);
    let mut below = sine(100.0, 0.5, sr);
    let mut above = sine(9000.0, 0.5, sr);
    for buf in [&mut inband, &mut below, &mut above] {
        let mut q = Biquad::new(&c, FilterKind::BandPass, s(sr as f32), s(1000.0), s(2.0));
        q.process_buffer(&c, buf);
    }
    assert!(rms(&inband[4800..]) > 0.5);
    assert!(rms(&below[4800..]) < 0.1);
    assert!(rms(&above[4800..]) < 0.1);
}

#[test]
fn envelope_bounds_and_shape() {
    let c = calc();
    let env = |p: f32, shape: f32| f(grain_env(&c, s(p), s(shape)));
    for shape in [0.1, 0.5, 1.0] {
        assert!(env(0.0, shape) < 1e-3);
        assert!(env(1.0, shape) < 1e-3);
        assert!((env(0.5, shape) - 1.0).abs() < 1e-3 || shape == 1.0);
        for i in 0..=100 {
            let v = env(i as f32 / 100.0, shape);
            assert!((0.0..=1.0001).contains(&v));
        }
    }
    assert!((env(0.5, 1.0) - 1.0).abs() < 1e-3);
}

#[test]
fn pitch_detection_sine() {
    let c = calc();
    let sr = 48000;
    for freq in [110.0, 220.0, 440.0, 587.33] {
        let x = sine(freq, 1.0, sr);
        let det = f(detect_pitch(&c, &x, sr).expect("pitch detected"));
        assert!((det - freq).abs() / freq < 0.02, "expected ~{freq}, got {det}");
    }
}

#[test]
fn pitch_detection_rejects_silence() {
    let c = calc();
    let x = vec![s(0.0); 48000];
    assert!(detect_pitch(&c, &x, 48000).is_none());
}

#[test]
fn rng_is_deterministic() {
    let mut a = Rng::new(42);
    let mut b = Rng::new(42);
    for _ in 0..100 {
        assert_eq!(a.next_u64(), b.next_u64());
    }
    let mut r = Rng::new(7);
    for _ in 0..1000 {
        let v = f(r.next_f32());
        assert!((0.0..1.0).contains(&v));
    }
}

#[test]
fn draws_match_the_shifts_they_are_made_of() {
    let c = calc();
    let mut x: u64 = 42u64.wrapping_mul(0x9E3779B97F4A7C15).max(1);
    let mut r = Rng::new(42);
    for _ in 0..50 {
        x ^= x >> 12;
        x ^= x << 25;
        x ^= x >> 27;
        let bits = x.wrapping_mul(0x2545F4914F6CDD1D);
        assert_eq!(f(r.next_f32()), (bits >> 40) as f32 / (1u64 << 24) as f32);
    }
    for _ in 0..200 {
        let v = f(r.bipolar());
        assert!((-1.0..1.0).contains(&v));
        let w = f(r.range(&c, s(3.0), s(5.0)));
        assert!((3.0..=5.0).contains(&w));
    }
}

#[test]
fn filtering_in_two_parts_is_filtering_at_once() {
    let c = calc();
    let spec = FilterSpec { kind: FilterKind::HighPass, freq: s(700.0), q: s(0.9) };
    let whole = sine(300.0, 0.1, 48000);
    let mut once = whole.clone();
    apply_filter_chain(&c, &mut once, &vec![spec], s(48000.0));
    let mut q = Biquad::from_spec(&c, &spec, s(48000.0));
    let mut a = whole[..1000].to_vec();
    let mut b = whole[1000..].to_vec();
    q.process_buffer(&c, &mut a);
    q.process_buffer(&c, &mut b);
    a.extend(b);
    for (x, y) in once.iter().zip(&a) {
        assert_eq!(x.bits, y.bits);
    }
}

#[test]
fn filter_kinds_have_names() {
    assert_eq!(FilterKind::parse("Low Pass"), Some(FilterKind::LowPass));
    assert_eq!(FilterKind::parse("hp"), Some(FilterKind::HighPass));
    assert_eq!(FilterKind::parse("comb"), None);
}

#[test]
fn a_leaning_envelope_keeps_its_length() {
    let c = calc();
    for skew in [-1.0, -0.3, 0.4, 1.0] {
        assert_eq!(f(grain_env_skewed(&c, s(-0.1), s(0.8), s(skew))), 0.0);
        assert_eq!(f(grain_env_skewed(&c, s(1.1), s(0.8), s(skew))), 0.0);
    }
}

#[test]
fn lane_interpolates_and_clamps() {
    let c = calc();
    let mut lane = AutomationLane::new("gain");
    lane.set_point(&c, d(4.0), d(1.0));
    lane.set_point(&c, d(0.0), d(0.0));
    lane.set_point(&c, d(8.0), d(0.5));
    let at = |lane: &AutomationLane, b: f64| lane.value_at(&c, d(b)).map(g);
    assert_eq!(at(&lane, -1.0), Some(0.0));
    assert_eq!(at(&lane, 0.0), Some(0.0));
    assert!((at(&lane, 2.0).unwrap() - 0.5).abs() < 1e-9);
    assert_eq!(at(&lane, 4.0), Some(1.0));
    assert!((at(&lane, 6.0).unwrap() - 0.75).abs() < 1e-9);
    assert_eq!(at(&lane, 100.0), Some(0.5));
    lane.set_point(&c, d(4.0), d(2.0));
    assert_eq!(at(&lane, 4.0), Some(2.0));
    assert_eq!(lane.points.len(), 3);
}

#[test]
fn empty_lane_is_none() {
    let c = calc();
    let lane = AutomationLane::new("gain");
    assert!(lane.value_at(&c, d(0.0)).is_none());
}

#[test]
fn settings_at_overrides() {
    let c = calc();
    let base = GrainSettings::default();
    let mut lane = AutomationLane::new("density");
    lane.set_point(&c, d(0.0), d(5.0));
    lane.set_point(&c, d(4.0), d(50.0));
    let eff = settings_at(&c, &base, &vec![lane], d(2.0));
    assert!((f(eff.density) - 27.5).abs() < 1e-4);
    let bogus = AutomationLane {
        param: "nope".to_string(),
        points: vec![AutoPoint { beat: d(0.0), value: d(1.0) }],
    };
    let eff2 = settings_at(&c, &base, &vec![bogus], d(0.0));
    assert_eq!(eff2, base);
}

#[test]
fn ranges_cover_all_automatable() {
    for p in automatable() {
        assert!(param_range(p).is_some(), "{p} needs a range");
    }
    assert!(param_range("seed").is_none());
}

#[test]
fn fft_roundtrip() {
    let c = calc();
    let n = 256;
    let orig: Vec<f32> = (0..n).map(|i| ((i * 7) % 13) as f32 / 13.0 - 0.5).collect();
    let mut re: Vec<F32> = orig.iter().map(|x| s(*x)).collect();
    let mut im = vec![s(0.0); n];
    fft(&c, &mut re, &mut im, false);
    fft(&c, &mut re, &mut im, true);
    for (a, b) in orig.iter().zip(&re) {
        assert!((a - f(*b)).abs() < 1e-4, "{a} vs {}", f(*b));
    }
}

#[test]
fn a_cosine_has_two_coefficients() {
    let c = calc();
    let n = 16;
    let mut re: Vec<F32> =
        (0..n).map(|i| s((2.0 * std::f32::consts::PI * 3.0 * i as f32 / n as f32).cos())).collect();
    let mut im = vec![s(0.0); n];
    fft(&c, &mut re, &mut im, false);
    for k in 0..n {
        let want = if k == 3 || k == 13 { 8.0 } else { 0.0 };
        assert!((f(re[k]) - want).abs() < 1e-4, "bin {k}: {}", f(re[k]));
        assert!(f(im[k]).abs() < 1e-4);
    }
}

#[test]
fn different_seeds_draw_apart() {
    for (x, y) in [(1u64, 2u64), (42, 43), (7, u64::MAX)] {
        let mut a = Rng::new(x);
        let mut b = Rng::new(y);
        for _ in 0..1000 {
            assert_ne!(a.next_u64(), b.next_u64());
        }
    }
}

#[test]
fn points_are_replaced_or_added_alone() {
    let c = calc();
    let mut lane = AutomationLane::new("gain");
    for i in 0..5 {
        lane.set_point(&c, d(i as f64), d(10.0 + i as f64));
    }
    let read = |lane: &AutomationLane| -> Vec<(f64, f64)> {
        lane.points.iter().map(|p| (g(p.beat), g(p.value))).collect()
    };
    let mut want = read(&lane);
    lane.set_point(&c, d(2.0 + 1e-10), d(0.5));
    want[2].1 = 0.5;
    assert_eq!(read(&lane), want);
    lane.set_point(&c, d(2.5), d(0.75));
    want.insert(3, (2.5, 0.75));
    assert_eq!(read(&lane), want);
    lane.set_point(&c, d(-1.0), d(1.0));
    want.insert(0, (-1.0, 1.0));
    assert_eq!(read(&lane), want);
    assert_eq!(lane.param, "gain");
}

#[test]
fn small_transforms_come_back_closely() {
    let c = calc();
    for bits in 0..8usize {
        let n = 1 << bits;
        let x: Vec<(f32, f32)> =
            (0..n).map(|i| ((i * 5 % 11) as f32 / 11.0 - 0.4, (i * 3 % 7) as f32 / 7.0)).collect();
        let mut re: Vec<F32> = x.iter().map(|z| s(z.0)).collect();
        let mut im: Vec<F32> = x.iter().map(|z| s(z.1)).collect();
        fft(&c, &mut re, &mut im, false);
        fft(&c, &mut re, &mut im, true);
        for i in 0..n {
            let off = (f(re[i]) - x[i].0).hypot(f(im[i]) - x[i].1);
            assert!(off < 1e-5, "{n}: {off}");
        }
    }
}

#[test]
fn points_far_out_are_told_apart() {
    let c = calc();
    let mut lane = AutomationLane::new("gain");
    for (i, b) in [1e300, -1e300, f64::MAX, f64::MIN, 0.0].iter().enumerate() {
        lane.set_point(&c, d(*b), d(i as f64));
    }
    assert_eq!(lane.points.len(), 5);
    lane.set_point(&c, d(1e300), d(9.0));
    assert_eq!(lane.points.len(), 5);
    assert_eq!(lane.value_at(&c, d(1e300)).map(g), Some(9.0));
}

#[test]
fn draws_are_never_zero() {
    for seed in [0u64, 1, 2, 99, 0x9E3779B97F4A7C15, u64::MAX] {
        let mut r = Rng::new(seed);
        assert!((0..5000).all(|_| r.next_u64() != 0));
    }
}
