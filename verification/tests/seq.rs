#![allow(dead_code)]
use chromagrain::calc::{Calc, Op, Width};
use chromagrain::num::{F32, F64};
use chromagrain::audio::AudioClip;
use chromagrain::auto::AutomationLane;
use chromagrain::grain::GrainEvent;
use chromagrain::music::{hz_to_midi, Key, ScaleKind};
use chromagrain::seq::{pattern_events, RowMode, StepPattern};
use chromagrain::timeline::Source;
use std::sync::Arc;

fn calc() -> Calc<impl Fn(Op, Width, u64, u64) -> u64> {
    let native = |o: Op, w: Width, a: u64, b: u64| -> u64 { match w {
        Width::Single => {
            let x = f32::from_bits(a as u32);
            let y = f32::from_bits(b as u32);
            let r = match o {
                Op::Add => x + y,
                Op::Sub => x - y,
                Op::Mul => x * y,
                Op::Div => x / y,
                Op::Rem => x % y,
                Op::RemEuclid => x.rem_euclid(y),
                Op::Sqrt => x.sqrt(),
                Op::Sin => x.sin(),
                Op::Cos => x.cos(),
                Op::Tanh => x.tanh(),
                Op::Pow => x.powf(y),
                Op::Log2 => x.log2(),
                Op::Exp => x.exp(),
                Op::Floor => x.floor(),
                Op::Ceil => x.ceil(),
                Op::Round => x.round(),
                Op::Fract => x.fract(),
                Op::FromInt => a as i64 as f32,
                Op::FromUint => a as f32,
                Op::ToInt => return x as i64 as u64,
                Op::ToUint => return x as u64,
                Op::Convert => return (x as f64).to_bits(),
            };
            r.to_bits() as u64
        }
        Width::Double => {
            let x = f64::from_bits(a);
            let y = f64::from_bits(b);
            let r = match o {
                Op::Add => x + y,
                Op::Sub => x - y,
                Op::Mul => x * y,
                Op::Div => x / y,
                Op::Rem => x % y,
                Op::RemEuclid => x.rem_euclid(y),
                Op::Sqrt => x.sqrt(),
                Op::Sin => x.sin(),
                Op::Cos => x.cos(),
                Op::Tanh => x.tanh(),
                Op::Pow => x.powf(y),
                Op::Log2 => x.log2(),
                Op::Exp => x.exp(),
                Op::Floor => x.floor(),
                Op::Ceil => x.ceil(),
                Op::Round => x.round(),
                Op::Fract => x.fract(),
                Op::FromInt => a as i64 as f64,
                Op::FromUint => a as f64,
                Op::ToInt => return x as i64 as u64,
                Op::ToUint => return x as u64,
                Op::Convert => return (x as f32).to_bits() as u64,
            };
            r.to_bits()
        }
    } };
    Calc { run: native }
}

fn s(x: f32) -> F32 {
    F32 { bits: x.to_bits() }
}

fn d(x: f64) -> F64 {
    F64 { bits: x.to_bits() }
}

fn f(x: F32) -> f32 {
    f32::from_bits(x.bits)
}

fn g(x: F64) -> f64 {
    f64::from_bits(x.bits)
}

fn source_440() -> Vec<Source> {
    vec![Source {
        name: "s".to_string(),
        audio: Some(Arc::new(AudioClip::sine(&calc(), s(440.0), s(2.0), 48000))),
        video: None,
        base_hz: s(440.0),
    }]
}

fn four_on_the_floor() -> StepPattern {
    let mut p = StepPattern::new("kick");
    let r = p.add_row(&calc(), 0);
    for i in (0..16).step_by(4) {
        p.rows[r].steps[i].on = true;
    }
    p
}

fn events(
    p: &StepPattern,
    start: f64,
    len: f64,
    key: Option<Key>,
    lanes: &Vec<AutomationLane>,
) -> Vec<(usize, Vec<GrainEvent>)> {
    pattern_events(&calc(), p, &source_440(), d(start), d(len), d(0.5), key, lanes)
}

#[test]
fn steps_land_on_the_beat_grid() {
    let p = four_on_the_floor();
    let parts = events(&p, 10.0, 2.0, None, &vec![]);
    assert_eq!(parts.len(), 1);
    let evs = &parts[0].1;
    assert_eq!(evs.len(), 4);
    for (i, ev) in evs.iter().enumerate() {
        let expected = 10.0 + i as f64 * 0.5;
        assert!((g(ev.onset) - expected).abs() < 1e-9, "hit {i} at {}", g(ev.onset));
    }
}

#[test]
fn pattern_loops_to_fill_clip() {
    let p = four_on_the_floor();
    let parts = events(&p, 0.0, 4.0, None, &vec![]);
    assert_eq!(parts[0].1.len(), 8);
    assert!((g(parts[0].1[4].onset) - 2.0).abs() < 1e-9);
    let mut ids: Vec<u64> = parts[0].1.iter().map(|e| e.id).collect();
    ids.dedup();
    assert_eq!(ids.len(), 8);
}

#[test]
fn step_pitch_and_key_quantize() {
    let c = calc();
    let mut p = StepPattern::new("melody");
    let r = p.add_row(&c, 0);
    p.rows[r].steps[0].on = true;
    p.rows[r].steps[0].pitch = s(3.5);
    p.rows[r].key = Some(Key::new(0, ScaleKind::Major));
    let parts = events(&p, 0.0, 2.0, None, &vec![]);
    let ev = &parts[0].1[0];
    let midi = f(hz_to_midi(&c, s(440.0 * f(ev.pitch_ratio))));
    assert!((midi - midi.round()).abs() < 1e-3, "quantized to key: {midi}");

    let whole = Key::new(0, ScaleKind::WholeTone);
    let parts2 = events(&p, 0.0, 2.0, Some(whole), &vec![]);
    let ev2 = &parts2[0].1[0];
    let midi2 = f(hz_to_midi(&c, s(440.0 * f(ev2.pitch_ratio))));
    let pc = (midi2.round() as i32).rem_euclid(12);
    assert!(whole.scale.intervals().contains(&pc), "override key applied");
}

#[test]
fn toggling_one_step_keeps_others_stable() {
    let mut p = four_on_the_floor();
    p.rows[0].grains.pitch_jitter = s(5.0);
    p.rows[0].grains.pan_spread = s(0.8);
    let before = events(&p, 0.0, 2.0, None, &vec![]);
    p.rows[0].steps[2].on = true;
    let after = events(&p, 0.0, 2.0, None, &vec![]);
    let find = |evs: &Vec<GrainEvent>, onset: f64| -> GrainEvent {
        *evs.iter().find(|e| (g(e.onset) - onset).abs() < 1e-9).unwrap()
    };
    for onset in [0.0, 0.5, 1.0, 1.5] {
        let a = find(&before[0].1, onset);
        let b = find(&after[0].1, onset);
        assert_eq!(f(a.pitch_ratio), f(b.pitch_ratio));
        assert_eq!(f(a.pan), f(b.pan));
        assert_eq!(g(a.source_pos), g(b.source_pos));
    }
}

#[test]
fn polymeter_row_cycles_its_own_length() {
    let mut p = StepPattern::new("poly");
    let r = p.add_row(&calc(), 0);
    p.rows[r].set_steps(3);
    p.rows[r].steps[0].on = true;
    let parts = events(&p, 0.0, 4.0, None, &vec![]);
    let evs = &parts[0].1;
    assert_eq!(evs.len(), 11, "ceil(32/3) hits, got {}", evs.len());
    for (k, ev) in evs.iter().enumerate() {
        let expected = (k * 3) as f64 * 0.125;
        assert!((g(ev.onset) - expected).abs() < 1e-9, "hit {k} at {}", g(ev.onset));
    }
}

#[test]
fn loop_mode_repeats_source_segment() {
    let mut p = StepPattern::new("loops");
    let r = p.add_row(&calc(), 0);
    p.rows[r].mode = RowMode::Loop;
    p.rows[r].loop_start = s(0.25);
    p.rows[r].loop_end = s(0.5);
    let parts = events(&p, 0.0, 2.0, None, &vec![]);
    let evs = &parts[0].1;
    assert_eq!(evs.len(), 4);
    for (k, ev) in evs.iter().enumerate() {
        assert!((g(ev.onset) - k as f64 * 0.5).abs() < 1e-9, "tiled back-to-back");
        assert!((g(ev.source_pos) - 0.5).abs() < 1e-9, "starts at loop_start");
        assert!((f(ev.duration) - 0.5).abs() < 1e-6);
    }
    p.rows[r].grains.pitch = s(12.0);
    let parts2 = events(&p, 0.0, 2.0, None, &vec![]);
    assert_eq!(parts2[0].1.len(), 8, "octave up = half-length repeats");
}

#[test]
fn clip_automation_overrides_row_params() {
    let c = calc();
    let p = four_on_the_floor();
    let mut lane = AutomationLane::new("gain");
    lane.set_point(&c, d(0.0), d(1.0));
    lane.set_point(&c, d(4.0), d(0.0));
    let parts = events(&p, 0.0, 2.0, None, &vec![lane]);
    let evs = &parts[0].1;
    assert_eq!(evs.len(), 4);
    assert!(f(evs[0].gain) > f(evs[3].gain) + 0.5, "gain fades");
}

#[test]
fn grid_resize_preserves_steps() {
    let c = calc();
    let mut p = four_on_the_floor();
    p.set_grid(&c, d(8.0), 4);
    assert_eq!(p.n_steps(&c), 32);
    assert!(p.rows[0].steps[0].on);
    assert!(p.rows[0].steps[4].on);
    assert_eq!(p.rows[0].steps.len(), 32);
}

#[test]
fn rows_of_their_own_length_keep_it() {
    let c = calc();
    let mut p = four_on_the_floor();
    p.rows[0].set_steps(5);
    p.set_grid(&c, d(8.0), 4);
    assert_eq!(p.rows[0].steps.len(), 5);
    p.rows[0].set_steps(0);
    assert_eq!(p.rows[0].steps.len(), 1);
    p.rows[0].set_steps(1000);
    assert_eq!(p.rows[0].steps.len(), 128);
}

#[test]
fn switching_a_step_on_keeps_the_whole_pattern() {
    let mut p = four_on_the_floor();
    let r = p.add_row(&calc(), 0);
    p.rows[r].steps[6].on = true;
    p.rows[0].grains.pitch_jitter = s(5.0);
    let before = events(&p, 0.0, 2.0, None, &vec![]);
    p.rows[0].steps[1].on = true;
    let after = events(&p, 0.0, 2.0, None, &vec![]);
    assert_eq!(before[1], after[1]);
    assert_eq!((before[0].1.len(), after[0].1.len()), (4, 5));
    for a in &before[0].1 {
        assert!(after[0].1.iter().any(|b| *a == GrainEvent { id: a.id, ..*b }));
    }
}
