#![allow(dead_code)]
use chromagrain::calc::{Calc, Op, Width};
use chromagrain::num::{F32, F64};
use chromagrain::dsp::{grain_env, grain_env_skewed};
use chromagrain::grain::{
    grain_from_note, schedule_grains, schedule_grains_auto, GrainSettings,
};
use chromagrain::music::{hz_to_midi, Key};

fn calc() -> Calc<impl Fn(Op, Width, u64, u64) -> u64> {
    let native = |o: Op, w: Width, a: u64, b: u64| -> u64 { match w {
        Width::Single => {
            let x = f32::from_bits(a as u32);
            let y = f32::from_bits(b as u32);
            let r = match o {
                Op::Add => x + y,
                Op::Sub => x - y,
                Op::Mul => x * y,
                Op::Div => x / y,
                Op::Rem => x % y,
                Op::RemEuclid => x.rem_euclid(y),
                Op::Sqrt => x.sqrt(),
                Op::Sin => x.sin(),
                Op::Cos => x.cos(),
                Op::Tanh => x.tanh(),
                Op::Pow => x.powf(y),
                Op::Log2 => x.log2(),
                Op::Exp => x.exp(),
                Op::Floor => x.floor(),
                Op::Ceil => x.ceil(),
                Op::Round => x.round(),
                Op::Fract => x.fract(),
                Op::FromInt => a as i64 as f32,
                Op::FromUint => a as f32,
                Op::ToInt => return x as i64 as u64,
                Op::ToUint => return x as u64,
                Op::Convert => return (x as f64).to_bits(),
            };
            r.to_bits() as u64
        }
        Width::Double => {
            let x = f64::from_bits(a);
            let y = f64::from_bits(b);
            let r = match o {
                Op::Add => x + y,
                Op::Sub => x - y,
                Op::Mul => x * y,
                Op::Div => x / y,
                Op::Rem => x % y,
                Op::RemEuclid => x.rem_euclid(y),
                Op::Sqrt => x.sqrt(),
                Op::Sin => x.sin(),
                Op::Cos => x.cos(),
                Op::Tanh => x.tanh(),
                Op::Pow => x.powf(y),
                Op::Log2 => x.log2(),
                Op::Exp => x.exp(),
                Op::Floor => x.floor(),
                Op::Ceil => x.ceil(),
                Op::Round => x.round(),
                Op::Fract => x.fract(),
                Op::FromInt => a as i64 as f64,
                Op::FromUint => a as f64,
                Op::ToInt => return x as i64 as u64,
                Op::ToUint => return x as u64,
                Op::Convert => return (x as f32).to_bits() as u64,
            };
            r.to_bits()
        }
    } };
    Calc { run: native }
}

fn s(x: f32) -> F32 {
    F32 { bits: x.to_bits() }
}

fn d(x: f64) -> F64 {
    F64 { bits: x.to_bits() }
}

fn f(x: F32) -> f32 {
    f32::from_bits(x.bits)
}

fn g(x: F64) -> f64 {
    f64::from_bits(x.bits)
}

#[test]
fn schedules_expected_grain_count() {
    let c = calc();
    let st = GrainSettings { density: s(50.0), ..Default::default() };
    let ev = schedule_grains(&c, &st, d(0.0), d(2.0), d(10.0), s(440.0), None);
    assert!(ev.len() > 60 && ev.len() < 220, "got {}", ev.len());
    for e in &ev {
        assert!(g(e.onset) >= 0.0 && g(e.onset) < 2.0);
        assert!(g(e.source_pos) >= 0.0 && g(e.source_pos) < 10.0);
        assert!(f(e.duration) > 0.0);
    }
}

#[test]
fn deterministic_with_seed() {
    let c = calc();
    let st = GrainSettings::default();
    let a = schedule_grains(&c, &st, d(0.0), d(1.0), d(5.0), s(440.0), None);
    let b = schedule_grains(&c, &st, d(0.0), d(1.0), d(5.0), s(440.0), None);
    assert_eq!(a, b);
    let s2 = GrainSettings { seed: 999, ..Default::default() };
    let e = schedule_grains(&c, &s2, d(0.0), d(1.0), d(5.0), s(440.0), None);
    assert_ne!(a, e);
}

#[test]
fn key_quantization_applies_to_all_grains() {
    let c = calc();
    let key = Key::parse("C", "majorpentatonic").unwrap();
    let st = GrainSettings { pitch_jitter: s(7.0), density: s(40.0), ..Default::default() };
    let ev = schedule_grains(&c, &st, d(0.0), d(1.0), d(5.0), s(261.626), Some(key));
    assert!(!ev.is_empty());
    for e in &ev {
        let midi = f(hz_to_midi(&c, s(261.626 * f(e.pitch_ratio))));
        let pc = (midi.round() as i32).rem_euclid(12);
        let rel = (pc - key.root).rem_euclid(12);
        assert!(key.scale.intervals().contains(&rel), "grain pitch pc {pc} escaped the key");
    }
}

#[test]
fn sync_locks_onsets_to_the_grid() {
    let c = calc();
    let st = GrainSettings {
        density: s(200.0),
        sync_div: s(0.25),
        duration_jitter: s(0.0),
        ..Default::default()
    };
    let ev = schedule_grains_auto(
        &c, &st, &vec![], d(0.5), d(0.0), d(2.0), d(10.0), s(440.0), None,
    );
    assert!(!ev.is_empty());
    for e in &ev {
        let slots = g(e.onset) / 0.125;
        assert!(
            (slots - slots.round()).abs() < 1e-9,
            "onset {} not on the 16th grid",
            g(e.onset)
        );
    }
    assert_eq!(ev.len(), 16);

    let sparse = GrainSettings { density: s(3.0), ..st };
    let ev2 = schedule_grains_auto(
        &c, &sparse, &vec![], d(0.5), d(0.0), d(4.0), d(10.0), s(440.0), None,
    );
    assert!(ev2.len() < 32 && !ev2.is_empty(), "{} hits", ev2.len());
}

#[test]
fn harmony_voices_stack_intervals() {
    let c = calc();
    let key = Key::parse("C", "major").unwrap();
    let st = GrainSettings {
        density: s(10.0),
        voices: 3,
        voice_interval: s(12.0),
        voice_detune: s(0.0),
        pitch_jitter: s(0.0),
        pan_spread: s(0.0),
        ..Default::default()
    };
    let base_hz = 261.626;
    let ev = schedule_grains(&c, &st, d(0.0), d(1.0), d(5.0), s(base_hz), Some(key));
    assert_eq!(ev.len() % 3, 0);
    for v in ev.chunks(3) {
        assert_eq!(g(v[0].onset), g(v[1].onset));
        assert_eq!(g(v[1].onset), g(v[2].onset));
        assert!((f(v[1].pitch_ratio) / f(v[0].pitch_ratio) - 2.0).abs() < 0.01);
        assert!((f(v[2].pitch_ratio) / f(v[0].pitch_ratio) - 4.0).abs() < 0.02);
        assert!((f(v[0].gain) - f(st.gain) / 3.0f32.sqrt()).abs() < 1e-6);
    }
    let s5 = GrainSettings { voice_interval: s(7.0), ..st };
    let ev5 = schedule_grains(&c, &s5, d(0.0), d(1.0), d(5.0), s(base_hz), Some(key));
    for e in &ev5 {
        let midi = f(hz_to_midi(&c, s(base_hz * f(e.pitch_ratio))));
        let pc = (midi.round() as i32).rem_euclid(12);
        assert!(key.scale.intervals().contains(&pc), "voice off-key: pc {pc}");
    }
}

#[test]
fn env_skew_shapes_attack_vs_release() {
    let c = calc();
    let env = |p: f32, shape: f32, skew: f32| f(grain_env_skewed(&c, s(p), s(shape), s(skew)));
    let perc_early = env(0.05, 0.8, -1.0);
    let perc_late = env(0.7, 0.8, -1.0);
    assert!(perc_early > 0.9, "instant attack: {perc_early}");
    assert!(perc_late < perc_early, "long tail decays: {perc_late}");
    let swell_early = env(0.3, 0.8, 1.0);
    let swell_late = env(0.95, 0.8, 1.0);
    assert!(swell_early < 0.9);
    assert!(swell_late > 0.9, "swell peaks late: {swell_late}");
    for p in [0.1, 0.3, 0.5, 0.8] {
        assert!((env(p, 0.6, 0.0) - f(grain_env(&c, s(p), s(0.6)))).abs() < 1e-6);
    }
}

#[test]
fn note_grain_is_a_sampler_mapping() {
    let c = calc();
    let st = GrainSettings { gain: s(1.0), pitch: s(0.0), ..Default::default() };
    let c4 = grain_from_note(&c, &st, 60, 127, d(4.0), d(0.0), 0);
    assert!((f(c4.pitch_ratio) - 1.0).abs() < 1e-6, "C4 plays at unity");
    let c5 = grain_from_note(&c, &st, 72, 127, d(4.0), d(0.0), 1);
    assert!((f(c5.pitch_ratio) - 2.0).abs() < 1e-5, "octave up doubles rate");
    let soft = grain_from_note(&c, &st, 60, 64, d(4.0), d(0.0), 2);
    assert!((f(soft.gain) - 64.0 / 127.0).abs() < 1e-5, "velocity -> gain");
}

#[test]
fn scan_advances_read_head() {
    let c = calc();
    let st = GrainSettings {
        spray: s(0.0),
        scan_speed: s(1.0),
        position: s(0.0),
        duration_jitter: s(0.0),
        ..Default::default()
    };
    let ev = schedule_grains(&c, &st, d(0.0), d(2.0), d(10.0), s(440.0), None);
    let first = ev.first().unwrap();
    let last = ev.last().unwrap();
    assert!(g(last.source_pos) > g(first.source_pos) + 1.0);
}

#[test]
fn parameters_are_set_by_name_within_bounds() {
    let c = calc();
    let mut st = GrainSettings::default();
    assert!(st.set_param(&c, "density", d(1000.0)).is_ok());
    assert_eq!(f(st.density), 500.0);
    assert!(st.set_param(&c, "spray", d(-3.0)).is_ok());
    assert_eq!(f(st.spray), 0.0);
    let before = st;
    assert!(st.set_param(&c, "densitty", d(1.0)).is_err());
    assert_eq!(st, before);
}

#[test]
fn grain_ids_count_up() {
    let c = calc();
    let st = GrainSettings { voices: 2, ..Default::default() };
    let ev = schedule_grains(&c, &st, d(0.0), d(1.0), d(5.0), s(440.0), None);
    for (i, e) in ev.iter().enumerate() {
        assert_eq!(e.id, i as u64);
    }
}

#[test]
fn free_grains_go_forward_within_bounds() {
    let c = calc();
    let st = GrainSettings {
        density: s(70.0),
        duration_jitter: s(1.0),
        spray: s(1.0),
        pan_spread: s(1.0),
        ..Default::default()
    };
    let ev = schedule_grains(&c, &st, d(3.0), d(2.0), d(1.5), s(440.0), None);
    assert_eq!(g(ev[0].onset), 3.0);
    for (i, e) in ev.iter().enumerate() {
        assert_eq!(e.id, i as u64);
        assert!(g(e.onset) >= 3.0 && g(e.onset) < 5.0);
        assert!(i == 0 || g(ev[i - 1].onset) <= g(e.onset));
        assert!((0.005..=5.0).contains(&f(e.duration)));
        assert!((-1.0..=1.0).contains(&f(e.pan)));
        assert!(g(e.source_pos) >= 0.0 && g(e.source_pos) < 1.5);
    }
    let none = |density: f32, len: f64, source: f64| {
        let st = GrainSettings { density: s(density), ..Default::default() };
        schedule_grains(&c, &st, d(0.0), d(len), d(source), s(440.0), None).is_empty()
    };
    assert!(none(0.0, 1.0, 1.0) && none(9.0, 0.0, 1.0) && none(9.0, 1.0, 0.0));
    assert!(!none(9.0, 1.0, 1.0));
}

#[test]
fn free_clouds_go_forward_and_stay_inside() {
    let c = calc();
    for seed in 0..20u64 {
        let st = GrainSettings { density: s(80.0), seed, ..Default::default() };
        let ev = schedule_grains(&c, &st, d(3.0), d(1.5), d(0.75), s(440.0), None);
        assert!(!ev.is_empty());
        for e in &ev {
            assert!(g(e.onset) >= 3.0 && g(e.onset) < 4.5);
            assert!(g(e.source_pos) >= 0.0 && g(e.source_pos) < 0.75);
        }
        assert!(ev.windows(2).all(|w| g(w[0].onset) <= g(w[1].onset)));
    }
}
