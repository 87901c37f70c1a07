#![allow(dead_code)]
use chromagrain::calc::{Calc, Op, Width};
use chromagrain::num::{F32, F64};
use chromagrain::music::{
    effective_ratio, hz_to_midi, midi_to_hz, parse_pitch_class, pitch_class_name,
    ratio_to_semitones, semitones_to_ratio, Key, ScaleKind,
};

fn calc() -> Calc<impl Fn(Op, Width, u64, u64) -> u64> {
    let native = |o: Op, w: Width, a: u64, b: u64| -> u64 { match w {
        Width::Single => {
            let x = f32::from_bits(a as u32);
            let y = f32::from_bits(b as u32);
            let r = match o {
                Op::Add => x + y,
                Op::Sub => x - y,
                Op::Mul => x * y,
                Op::Div => x / y,
                Op::Rem => x % y,
                Op::RemEuclid => x.rem_euclid(y),
                Op::Sqrt => x.sqrt(),
                Op::Sin => x.sin(),
                Op::Cos => x.cos(),
                Op::Tanh => x.tanh(),
                Op::Pow => x.powf(y),
                Op::Log2 => x.log2(),
                Op::Exp => x.exp(),
                Op::Floor => x.floor(),
                Op::Ceil => x.ceil(),
                Op::Round => x.round(),
                Op::Fract => x.fract(),
                Op::FromInt => a as i64 as f32,
                Op::FromUint => a as f32,
                Op::ToInt => return x as i64 as u64,
                Op::ToUint => return x as u64,
                Op::Convert => return (x as f64).to_bits(),
            };
            r.to_bits() as u64
        }
        Width::Double => {
            let x = f64::from_bits(a);
            let y = f64::from_bits(b);
            let r = match o {
                Op::Add => x + y,
                Op::Sub => x - y,
                Op::Mul => x * y,
                Op::Div => x / y,
                Op::Rem => x % y,
                Op::RemEuclid => x.rem_euclid(y),
                Op::Sqrt => x.sqrt(),
                Op::Sin => x.sin(),
                Op::Cos => x.cos(),
                Op::Tanh => x.tanh(),
                Op::Pow => x.powf(y),
                Op::Log2 => x.log2(),
                Op::Exp => x.exp(),
                Op::Floor => x.floor(),
                Op::Ceil => x.ceil(),
                Op::Round => x.round(),
                Op::Fract => x.fract(),
                Op::FromInt => a as i64 as f64,
                Op::FromUint => a as f64,
                Op::ToInt => return x as i64 as u64,
                Op::ToUint => return x as u64,
                Op::Convert => return (x as f32).to_bits() as u64,
            };
            r.to_bits()
        }
    } };
    Calc { run: native }
}

fn s(x: f32) -> F32 {
    F32 { bits: x.to_bits() }
}

fn d(x: f64) -> F64 {
    F64 { bits: x.to_bits() }
}

fn f(x: F32) -> f32 {
    f32::from_bits(x.bits)
}

fn g(x: F64) -> f64 {
    f64::from_bits(x.bits)
}

fn contains(scale: ScaleKind, step: i32) -> bool {
    scale.intervals().contains(&step)
}

#[test]
fn music_midi_hz_roundtrip() {
    let c = calc();
    assert!((f(hz_to_midi(&c, s(440.0))) - 69.0).abs() < 1e-4);
    assert!((f(midi_to_hz(&c, s(69.0))) - 440.0).abs() < 1e-2);
    assert!((f(midi_to_hz(&c, hz_to_midi(&c, s(123.4)))) - 123.4).abs() < 1e-2);
}

#[test]
fn music_parse_notes() {
    assert_eq!(parse_pitch_class("C"), Some(0));
    assert_eq!(parse_pitch_class("F#"), Some(6));
    assert_eq!(parse_pitch_class("Bb"), Some(10));
    assert_eq!(parse_pitch_class("Cb"), Some(11));
    assert_eq!(parse_pitch_class("x"), None);
}

#[test]
fn parse_notes() {
    assert_eq!(parse_pitch_class("C"), Some(0));
    assert_eq!(parse_pitch_class("F#"), Some(6));
    assert_eq!(parse_pitch_class("Bb"), Some(10));
    assert_eq!(parse_pitch_class("Cb"), Some(11));
    assert_eq!(parse_pitch_class("x"), None);
    assert_eq!(parse_pitch_class(" e "), Some(4));
    assert_eq!(parse_pitch_class(""), None);
}

#[test]
fn music_quantize_in_scale_is_identity() {
    let c = calc();
    let key = Key::parse("C", "major").unwrap();
    // A4 = midi 69 is in C major.
    assert_eq!(f(key.quantize_midi(&c, s(69.0))), 69.0);
}

#[test]
fn music_quantize_snaps_to_nearest_scale_note() {
    let c = calc();
    let key = Key::parse("C", "major").unwrap();
    assert_eq!(f(key.quantize_midi(&c, s(70.4))), 71.0);
    assert_eq!(f(key.quantize_midi(&c, s(69.6))), 69.0);
}

#[test]
fn effective_ratio_partial_quantize_lands_halfway() {
    let c = calc();
    let key = Key::parse("C", "major").unwrap();
    let base = midi_to_hz(&c, s(60.0));
    let st = 0.5;
    let full = effective_ratio(&c, s(st), Some(key), base, s(1.0), s(0.0));
    let snapped_st = f(ratio_to_semitones(&c, full));
    let half = effective_ratio(&c, s(st), Some(key), base, s(0.5), s(0.0));
    let half_st = f(ratio_to_semitones(&c, half));
    assert!((half_st - (st + snapped_st) / 2.0).abs() < 1e-3);
    let free = effective_ratio(&c, s(st), Some(key), base, s(0.0), s(0.0));
    assert!((f(ratio_to_semitones(&c, free)) - st).abs() < 1e-3);
}

#[test]
fn effective_ratio_detune_applies_after_snap() {
    let c = calc();
    let key = Key::parse("C", "major").unwrap();
    let base = midi_to_hz(&c, s(60.0));
    let snapped = f(effective_ratio(&c, s(0.3), Some(key), base, s(1.0), s(0.0)));
    let detuned = f(effective_ratio(&c, s(0.3), Some(key), base, s(1.0), s(50.0)));
    let expect = snapped * 2.0_f32.powf(50.0 / 1200.0);
    assert!((detuned - expect).abs() < 1e-5);
    let lower = f(effective_ratio(&c, s(0.0), None, base, s(1.0), s(-25.0)));
    assert!((lower - 2.0_f32.powf(-25.0 / 1200.0)).abs() < 1e-5);
    let held = f(effective_ratio(&c, s(0.0), None, base, s(0.0), s(400.0)));
    assert!((held - 2.0_f32.powf(100.0 / 1200.0)).abs() < 1e-5);
}

#[test]
fn music_quantize_ratio_lands_on_key() {
    let c = calc();
    let key = Key::parse("D", "minorpentatonic").unwrap();
    let base = 440.0;
    for i in 0..40 {
        let ratio = 0.5 + i as f32 * 0.05;
        let q = f(key.quantize_ratio(&c, s(base), s(ratio)));
        let midi = f(hz_to_midi(&c, s(base * q)));
        let pc = (midi.round() as i32).rem_euclid(12);
        let rel = (pc - key.root).rem_euclid(12);
        assert!(contains(key.scale, rel), "ratio {ratio} -> midi {midi} pc {pc} not in scale");
        assert!((midi - midi.round()).abs() < 1e-3);
    }
}

#[test]
fn keys_are_parsed_by_root_and_scale() {
    let key = Key::parse(" f# ", "Harmonic Minor").unwrap();
    assert_eq!(key.root, 6);
    assert_eq!(key.scale, ScaleKind::HarmonicMinor);
    assert!(Key::parse("H", "major").is_none());
    assert!(Key::parse("C", "majorish").is_none());
    assert_eq!(pitch_class_name(10), "A#");
    assert_eq!(ScaleKind::Blues.intervals(), vec![0, 3, 5, 6, 7, 10]);
}

#[test]
fn an_octave_doubles() {
    let c = calc();
    assert_eq!(f(semitones_to_ratio(&c, s(12.0))), 2.0);
    assert_eq!(f(ratio_to_semitones(&c, s(4.0))), 24.0);
}

#[test]
fn quantizing_twice_changes_nothing() {
    let c = calc();
    let key = Key::parse("Eb", "dorian").unwrap();
    for i in 0..50 {
        let once = key.quantize_midi(&c, s(40.0 + i as f32 * 0.73));
        assert_eq!(f(key.quantize_midi(&c, once)), f(once));
    }
}

#[test]
fn snapping_finds_the_nearest_note_of_all() {
    let c = calc();
    let key = Key::parse("D", "minorpentatonic").unwrap();
    for i in -80..80 {
        let midi = i as f32 * 0.37;
        let r = f(key.quantize_midi(&c, s(midi)));
        assert_eq!(r, r.round());
        assert!(contains(key.scale, (r as i32 - key.root).rem_euclid(12)));
        for n in -60..60i32 {
            if contains(key.scale, (n - key.root).rem_euclid(12)) {
                let (near, far) = ((r - midi).abs(), (n as f32 - midi).abs());
                assert!(near <= far, "{midi}: {r} or {n}");
                assert!(near < far || r <= n as f32);
            }
        }
    }
    // D and F are a minor third apart: halfway between them the lower one is taken.
    assert_eq!(f(key.quantize_midi(&c, s(63.5))), 62.0);
}

#[test]
fn snapped_ratios_are_those_of_the_snapped_note() {
    let c = calc();
    let key = Key::parse("C", "major").unwrap();
    let base = s(220.0);
    let note = key.quantize_midi(&c, hz_to_midi(&c, s(220.0 * 1.07)));
    assert_eq!(f(note), 59.0);
    let q = key.quantize_ratio(&c, base, s(1.07));
    assert_eq!(f(q), f(midi_to_hz(&c, note)) / 220.0);
}

#[test]
fn the_amount_goes_from_free_to_snapped() {
    let c = calc();
    let key = Key::parse("C", "major").unwrap();
    let base = midi_to_hz(&c, s(60.0));
    for st in [-7.4f32, -0.7, 0.3, 1.4, 11.6] {
        let at = |a: f32| f(ratio_to_semitones(&c, effective_ratio(&c, s(st), Some(key), base, s(a), s(0.0))));
        for a in [0.0f32, 0.25, 0.5, 0.75, 1.0] {
            assert!((at(a) - (st + a * (at(1.0) - st))).abs() < 1e-3, "{st} at {a}");
        }
        assert!((at(0.0) - st).abs() < 1e-3);
    }
}

#[test]
fn detuning_is_a_factor() {
    let c = calc();
    let key = Key::parse("A", "major").unwrap();
    for d in [-400.0f32, -100.0, -31.0, 0.0, 12.5, 100.0, 250.0] {
        let flat = f(effective_ratio(&c, s(3.3), Some(key), s(220.0), s(0.7), s(0.0)));
        let out = f(effective_ratio(&c, s(3.3), Some(key), s(220.0), s(0.7), s(d)));
        let want = flat * 2.0f32.powf(d.clamp(-100.0, 100.0) / 1200.0);
        assert!((out / want - 1.0).abs() < 1e-5, "{d} cents");
    }
}
