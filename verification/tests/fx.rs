#![allow(dead_code)]
use chromagrain::calc::{Calc, Op, Width};
use chromagrain::num::{F32, F64};
use chromagrain::audio::StereoBuffer;
use chromagrain::fx::{AvEffect, EffectKind};
use chromagrain::fx_audio::{
    apply_audio_chain, audio_chain_latency, audio_chain_states, process_audio_chain,
};
use chromagrain::fx_video::{apply_video_chain, video_chain_states};
use chromagrain::spectral::{sort_descending, SpectralState, SPECTRAL_N};
use chromagrain::video::{blend_layer, Frame, VideoClip};

fn calc() -> Calc<impl Fn(Op, Width, u64, u64) -> u64> {
    let native = |o: Op, w: Width, a: u64, b: u64| -> u64 { match w {
        Width::Single => {
            let x = f32::from_bits(a as u32);
            let y = f32::from_bits(b as u32);
            let r = match o {
                Op::Add => x + y,
                Op::Sub => x - y,
                Op::Mul => x * y,
                Op::Div => x / y,
                Op::Rem => x % y,
                Op::RemEuclid => x.rem_euclid(y),
                Op::Sqrt => x.sqrt(),
                Op::Sin => x.sin(),
                Op::Cos => x.cos(),
                Op::Tanh => x.tanh(),
                Op::Pow => x.powf(y),
                Op::Log2 => x.log2(),
                Op::Exp => x.exp(),
                Op::Floor => x.floor(),
                Op::Ceil => x.ceil(),
                Op::Round => x.round(),
                Op::Fract => x.fract(),
                Op::FromInt => a as i64 as f32,
                Op::FromUint => a as f32,
                Op::ToInt => return x as i64 as u64,
                Op::ToUint => return x as u64,
                Op::Convert => return (x as f64).to_bits(),
            };
            r.to_bits() as u64
        }
        Width::Double => {
            let x = f64::from_bits(a);
            let y = f64::from_bits(b);
            let r = match o {
                Op::Add => x + y,
                Op::Sub => x - y,
                Op::Mul => x * y,
                Op::Div => x / y,
                Op::Rem => x % y,
                Op::RemEuclid => x.rem_euclid(y),
                Op::Sqrt => x.sqrt(),
                Op::Sin => x.sin(),
                Op::Cos => x.cos(),
                Op::Tanh => x.tanh(),
                Op::Pow => x.powf(y),
                Op::Log2 => x.log2(),
                Op::Exp => x.exp(),
                Op::Floor => x.floor(),
                Op::Ceil => x.ceil(),
                Op::Round => x.round(),
                Op::Fract => x.fract(),
                Op::FromInt => a as i64 as f64,
                Op::FromUint => a as f64,
                Op::ToInt => return x as i64 as u64,
                Op::ToUint => return x as u64,
                Op::Convert => return (x as f32).to_bits() as u64,
            };
            r.to_bits()
        }
    } };
    Calc { run: native }
}

fn s(x: f32) -> F32 {
    F32 { bits: x.to_bits() }
}

fn d(x: f64) -> F64 {
    F64 { bits: x.to_bits() }
}

fn f(x: F32) -> f32 {
    f32::from_bits(x.bits)
}

fn g(x: F64) -> f64 {
    f64::from_bits(x.bits)
}

fn crush(downsample: f32, bits: f32) -> AvEffect {
    AvEffect::new(EffectKind::Crush { downsample: s(downsample), bits: s(bits) })
}

fn delay(time: f32, feedback: f32, mix: f32) -> AvEffect {
    AvEffect::new(EffectKind::Delay {
        time: s(time),
        feedback: s(feedback),
        mix: s(mix),
        shift_x: s(0.0),
        shift_y: s(0.0),
    })
}

fn reverb(size: f32, damp: f32, mix: f32) -> AvEffect {
    AvEffect::new(EffectKind::Reverb { size: s(size), damp: s(damp), mix: s(mix) })
}

fn compress(quality: f32) -> AvEffect {
    AvEffect::new(EffectKind::Compress { quality: s(quality) })
}

fn impulse_buffer(len_secs: f64, sr: u32) -> StereoBuffer {
    let c = calc();
    let mut b = StereoBuffer::new(&c, d(len_secs), sr);
    b.left[0] = s(1.0);
    b.right[0] = s(1.0);
    b
}

fn energy(x: &[F32]) -> f32 {
    x.iter().map(|v| f(*v) * f(*v)).sum()
}

/// What the frame contributes when composited onto black.
fn luma_on_black(x: &Frame) -> f32 {
    let c = calc();
    let mut black = Frame::black(x.width, x.height);
    blend_layer(&c, &mut black, x, s(0.0), s(1.0));
    f(black.mean_luma(&c))
}

#[test]
fn crush_reduces_distinct_values() {
    let c = calc();
    let sr = 48000;
    let mut buf = StereoBuffer::new(&c, d(0.2), sr);
    for (i, x) in buf.left.iter_mut().enumerate() {
        *x = s((2.0 * std::f32::consts::PI * 440.0 * i as f32 / sr as f32).sin());
    }
    buf.right = buf.left.clone();
    apply_audio_chain(&c, &mut buf, &vec![crush(8.0, 3.0)]);
    let mut vals: Vec<i32> = buf.left.iter().map(|x| (f(*x) * 1000.0) as i32).collect();
    vals.sort_unstable();
    vals.dedup();
    assert!(vals.len() <= 9, "expected few levels, got {}", vals.len());
    assert_eq!(f(buf.left[100]), f(buf.left[101]));
}

#[test]
fn delay_produces_decaying_echoes() {
    let c = calc();
    let sr = 48000;
    let mut buf = impulse_buffer(1.0, sr);
    let fx = delay(0.1, 0.5, 1.0);
    apply_audio_chain(&c, &mut buf, &vec![fx]);
    let n = (0.1 * sr as f32) as usize;
    assert!((f(buf.left[n]) - 1.0).abs() < 0.01, "first echo ~1.0: {}", f(buf.left[n]));
    assert!((f(buf.left[2 * n]) - 0.5).abs() < 0.01, "second echo ~0.5: {}", f(buf.left[2 * n]));
    assert!((f(buf.left[3 * n]) - 0.25).abs() < 0.01);
    let mut dry = impulse_buffer(1.0, sr);
    let mut off = fx;
    off.audio = s(0.0);
    apply_audio_chain(&c, &mut dry, &vec![off]);
    assert_eq!(f(dry.left[n]), 0.0);
}

#[test]
fn reverb_adds_tail() {
    let c = calc();
    let sr = 48000;
    let mut buf = impulse_buffer(2.0, sr);
    apply_audio_chain(&c, &mut buf, &vec![reverb(0.8, 0.3, 0.8)]);
    let tail = energy(&buf.left[sr as usize / 2..sr as usize]);
    assert!(tail > 1e-6, "reverb should ring: tail energy {tail}");
    let mut dry = impulse_buffer(2.0, sr);
    apply_audio_chain(&c, &mut dry, &vec![reverb(0.8, 0.3, 0.0)]);
    let tail0 = energy(&dry.left[sr as usize / 2..sr as usize]);
    assert!(tail0 < 1e-12);
}

#[test]
fn spectral_crush_degrades_but_preserves_energy() {
    let c = calc();
    let sr = 48000;
    let mut buf = StereoBuffer::new(&c, d(1.0), sr);
    for (i, x) in buf.left.iter_mut().enumerate() {
        let t = i as f32 / sr as f32;
        *x = s(0.5 * (2.0 * std::f32::consts::PI * 440.0 * t).sin()
            + 0.2 * (2.0 * std::f32::consts::PI * 2917.0 * t).sin());
    }
    buf.right = buf.left.clone();
    let before = f(buf.rms(&c));
    let orig = buf.left.clone();
    apply_audio_chain(&c, &mut buf, &vec![compress(0.15)]);
    let after = f(buf.rms(&c));
    assert!(after > before * 0.2, "energy mostly retained: {before} -> {after}");
    let gap = |x: &[F32]| -> f32 {
        orig.iter().zip(x).map(|(a, b)| (f(*a) - f(*b)).abs()).sum::<f32>() / orig.len() as f32
    };
    assert!(gap(&buf.left) > 1e-4, "low quality should audibly change the signal");
    let mut clean = StereoBuffer::new(&c, d(1.0), sr);
    clean.left = orig.clone();
    clean.right = orig.clone();
    apply_audio_chain(&c, &mut clean, &vec![compress(1.0)]);
    let diff1 = gap(&clean.left);
    assert!(diff1 < 1e-3, "quality 1 ~ transparent, diff {diff1}");
}

#[test]
fn chunked_streaming_matches_one_shot() {
    let c = calc();
    let sr = 48000;
    let len = sr as usize;
    let src: Vec<F32> = (0..len)
        .map(|i| {
            let t = i as f32 / sr as f32;
            s(0.4 * (2.0 * std::f32::consts::PI * 220.0 * t).sin()
                + 0.2 * (2.0 * std::f32::consts::PI * 3130.0 * t).sin())
        })
        .collect();
    let chain = vec![crush(5.0, 6.0), delay(0.13, 0.4, 0.6), reverb(0.6, 0.3, 0.4), compress(0.3)];

    let mut one_l = src.clone();
    let mut one_r = src.clone();
    let mut st1 = audio_chain_states(&c, &chain, sr);
    process_audio_chain(&c, &mut one_l, &mut one_r, &chain, &mut st1);

    let mut str_l: Vec<F32> = Vec::new();
    let mut str_r: Vec<F32> = Vec::new();
    let mut st2 = audio_chain_states(&c, &chain, sr);
    let sizes = [64usize, 480, 1024, 333, 4096, 100, 2048];
    let mut pos = 0;
    let mut k = 0;
    while pos < len {
        let b = sizes[k % sizes.len()].min(len - pos);
        let mut l = src[pos..pos + b].to_vec();
        let mut r = src[pos..pos + b].to_vec();
        process_audio_chain(&c, &mut l, &mut r, &chain, &mut st2);
        str_l.extend(l);
        str_r.extend(r);
        pos += b;
        k += 1;
    }

    for i in 0..len {
        assert!(
            (f(one_l[i]) - f(str_l[i])).abs() < 1e-5,
            "left diverged at {i}: {} vs {}",
            f(one_l[i]),
            f(str_l[i])
        );
        assert!((f(one_r[i]) - f(str_r[i])).abs() < 1e-5);
    }
    let rms = (energy(&str_l) / len as f32).sqrt();
    assert!(rms > 0.05, "rms {rms}");
}

#[test]
fn offline_wrapper_compensates_compress_latency() {
    let c = calc();
    let sr = 48000;
    let mut buf = StereoBuffer::new(&c, d(0.5), sr);
    let k = 12000usize;
    buf.left[k] = s(1.0);
    buf.right[k] = s(1.0);
    apply_audio_chain(&c, &mut buf, &vec![compress(0.6)]);
    let around = energy(&buf.left[k.saturating_sub(SPECTRAL_N)..k + SPECTRAL_N]);
    let total = energy(&buf.left);
    assert!(total > 1e-6, "impulse survived");
    assert!(around / total > 0.8, "energy centered on the impulse: {}", around / total);
}

#[test]
fn only_compression_that_runs_delays() {
    let c = calc();
    let mut off = compress(0.3);
    off.audio = s(0.0);
    assert_eq!(audio_chain_latency(&c, &vec![compress(0.3), crush(2.0, 8.0)]), SPECTRAL_N);
    assert_eq!(audio_chain_latency(&c, &vec![compress(0.3), compress(0.5)]), 2 * SPECTRAL_N);
    assert_eq!(audio_chain_latency(&c, &vec![off, compress(1.0)]), 0);
}

#[test]
fn a_spectral_stream_comes_one_window_late() {
    let c = calc();
    let mut st = SpectralState::new();
    let mut x: Vec<F32> = (0..4096).map(|i| s(((i % 50) as f32 / 50.0) - 0.5)).collect();
    st.process(&c, &mut x, s(0.9));
    assert_eq!(x.len(), 4096);
    assert!(x[..SPECTRAL_N].iter().all(|v| f(*v).abs() < 1e-6));
    assert!(energy(&x[SPECTRAL_N..]) > 1.0);
}

#[test]
fn sorting_goes_down() {
    let v: Vec<f32> = sort_descending(&vec![s(0.5), s(3.0), s(-1.0), s(3.0), s(0.0)])
        .iter()
        .map(|x| f(*x))
        .collect();
    assert_eq!(v, vec![3.0, 3.0, 0.5, 0.0, -1.0]);
}

#[test]
fn video_crush_pixelates_and_posterizes() {
    let c = calc();
    let clip = VideoClip::test_pattern(&c, 64, 48, s(10.0), s(0.2));
    let mut frame = clip.frames[0].clone();
    let chain = vec![crush(8.0, 2.0)];
    let mut states = video_chain_states(&c, &chain, s(10.0));
    apply_video_chain(&c, &mut frame, &chain, &mut states);
    assert_eq!(frame.get(0, 0), frame.get(7, 7));
    assert_eq!(frame.get(8, 8), frame.get(15, 15));
    let mut reds: Vec<u8> = frame.data.chunks_exact(4).map(|p| p[0]).collect();
    reds.sort_unstable();
    reds.dedup();
    assert!(reds.len() <= 4, "2 bits -> <=4 levels, got {}", reds.len());
}

#[test]
fn video_delay_ghosts_past_frames() {
    let c = calc();
    let chain = vec![delay(0.25, 0.6, 0.8)];
    let mut states = video_chain_states(&c, &chain, s(12.0));
    let mut lumas = Vec::new();
    for i in 0..10 {
        let mut x = if i == 0 {
            let mut x = Frame::black(32, 24);
            for px in x.data.chunks_exact_mut(4) {
                px[0] = 255;
                px[1] = 255;
                px[2] = 255;
            }
            x
        } else {
            Frame::transparent(32, 24)
        };
        apply_video_chain(&c, &mut x, &chain, &mut states);
        lumas.push(luma_on_black(&x));
    }
    assert!(lumas[0] > 200.0);
    assert!(lumas[1] < 5.0 && lumas[2] < 5.0, "no ghost before delay");
    assert!(lumas[3] > 20.0, "ghost at delay: {}", lumas[3]);
    assert!(lumas[6] > 2.0 && lumas[6] < lumas[3], "decayed 2nd echo: {}", lumas[6]);
}

#[test]
fn video_reverb_smears_persistence() {
    let c = calc();
    let chain = vec![reverb(0.8, 0.5, 0.9)];
    let mut states = video_chain_states(&c, &chain, s(12.0));
    let mut lumas = Vec::new();
    for i in 0..12 {
        let mut x = if i < 3 {
            let mut x = Frame::black(32, 24);
            for px in x.data.chunks_exact_mut(4) {
                px[1] = 255;
            }
            x
        } else {
            Frame::transparent(32, 24)
        };
        apply_video_chain(&c, &mut x, &chain, &mut states);
        lumas.push(luma_on_black(&x));
    }
    assert!(lumas[3] > 5.0, "persistence right after: {}", lumas[3]);
    assert!(lumas[3] > lumas[6], "decaying: {:?}", lumas);
    assert!(lumas[6] > lumas[10], "still decaying: {:?}", lumas);
}

fn mean_gap(a: &Frame, b: &Frame) -> f64 {
    a.data.iter().zip(&b.data).map(|(x, y)| (*x as f64 - *y as f64).abs()).sum::<f64>()
        / a.data.len() as f64
}

#[test]
fn video_compress_is_blocky_at_low_quality() {
    let c = calc();
    let clip = VideoClip::test_pattern(&c, 64, 48, s(10.0), s(0.2));
    let orig = clip.frames[0].clone();

    let mut hi = orig.clone();
    let chain1 = vec![compress(1.0)];
    let mut st1 = video_chain_states(&c, &chain1, s(10.0));
    apply_video_chain(&c, &mut hi, &chain1, &mut st1);
    let diff_hi = mean_gap(&orig, &hi);
    assert!(diff_hi < 1.0, "quality 1 near-lossless, mean diff {diff_hi}");

    let mut lo = orig.clone();
    let chain0 = vec![compress(0.05)];
    let mut st0 = video_chain_states(&c, &chain0, s(10.0));
    apply_video_chain(&c, &mut lo, &chain0, &mut st0);
    let mean = mean_gap(&orig, &lo);
    assert!(mean > 0.3, "low quality shifts pixels, mean diff {mean}");

    let mut step = Frame::black(64, 48);
    for y in 0..48u32 {
        for x in 28..64u32 {
            step.put(x, y, [255, 255, 255, 255]);
        }
    }
    let step_orig = step.clone();
    let mut st0b = video_chain_states(&c, &chain0, s(10.0));
    apply_video_chain(&c, &mut step, &chain0, &mut st0b);
    let max = step_orig
        .data
        .iter()
        .zip(&step.data)
        .map(|(a, b)| (*a as i32 - *b as i32).abs())
        .max()
        .unwrap();
    assert!(max > 20, "edge ringing expected, max diff {max}");
}

#[test]
fn video_dial_zero_bypasses() {
    let c = calc();
    let clip = VideoClip::test_pattern(&c, 64, 48, s(10.0), s(0.2));
    let orig = clip.frames[0].clone();
    let mut x = orig.clone();
    let mut fx = crush(8.0, 2.0);
    fx.video = s(0.0);
    let chain = vec![fx];
    let mut states = video_chain_states(&c, &chain, s(10.0));
    apply_video_chain(&c, &mut x, &chain, &mut states);
    assert_eq!(orig.data, x.data);
}

#[test]
fn effect_param_setter() {
    let mut fx = AvEffect::new(EffectKind::parse("delay").unwrap());
    fx.set_param("time", s(0.7)).unwrap();
    fx.set_param("feedback", s(0.3)).unwrap();
    fx.set_param("video", s(0.5)).unwrap();
    assert!(matches!(fx.kind, EffectKind::Delay { time, feedback, .. }
        if (f(time) - 0.7).abs() < 1e-6 && (f(feedback) - 0.3).abs() < 1e-6));
    assert_eq!(f(fx.video), 0.5);
    assert_eq!(fx.set_param("nonsense", s(1.0)).unwrap_err(), "delay has no parameter 'nonsense'");
    assert!(EffectKind::parse("flanger").is_none());
}

#[test]
fn effect_names_are_read_back() {
    for name in ["crush", "delay", "reverb", "compress"] {
        assert_eq!(EffectKind::parse(name).unwrap().name(), name);
    }
}
