#![allow(dead_code)]
use chromagrain::calc::{Calc, Op, Width};
use chromagrain::num::{F32, F64};
use chromagrain::auto::param_range;
use chromagrain::midi::{apply_cc, parse, CcMapping, CcTarget, MidiMsg};
use chromagrain::timeline::Project;

fn calc() -> Calc<impl Fn(Op, Width, u64, u64) -> u64> {
    let native = |o: Op, w: Width, a: u64, b: u64| -> u64 { match w {
        Width::Single => {
            let x = f32::from_bits(a as u32);
            let y = f32::from_bits(b as u32);
            let r = match o {
                Op::Add => x + y,
                Op::Sub => x - y,
                Op::Mul => x * y,
                Op::Div => x / y,
                Op::Rem => x % y,
                Op::RemEuclid => x.rem_euclid(y),
                Op::Sqrt => x.sqrt(),
                Op::Sin => x.sin(),
                Op::Cos => x.cos(),
                Op::Tanh => x.tanh(),
                Op::Pow => x.powf(y),
                Op::Log2 => x.log2(),
                Op::Exp => x.exp(),
                Op::Floor => x.floor(),
                Op::Ceil => x.ceil(),
                Op::Round => x.round(),
                Op::Fract => x.fract(),
                Op::FromInt => a as i64 as f32,
                Op::FromUint => a as f32,
                Op::ToInt => return x as i64 as u64,
                Op::ToUint => return x as u64,
                Op::Convert => return (x as f64).to_bits(),
            };
            r.to_bits() as u64
        }
        Width::Double => {
            let x = f64::from_bits(a);
            let y = f64::from_bits(b);
            let r = match o {
                Op::Add => x + y,
                Op::Sub => x - y,
                Op::Mul => x * y,
                Op::Div => x / y,
                Op::Rem => x % y,
                Op::RemEuclid => x.rem_euclid(y),
                Op::Sqrt => x.sqrt(),
                Op::Sin => x.sin(),
                Op::Cos => x.cos(),
                Op::Tanh => x.tanh(),
                Op::Pow => x.powf(y),
                Op::Log2 => x.log2(),
                Op::Exp => x.exp(),
                Op::Floor => x.floor(),
                Op::Ceil => x.ceil(),
                Op::Round => x.round(),
                Op::Fract => x.fract(),
                Op::FromInt => a as i64 as f64,
                Op::FromUint => a as f64,
                Op::ToInt => return x as i64 as u64,
                Op::ToUint => return x as u64,
                Op::Convert => return (x as f32).to_bits() as u64,
            };
            r.to_bits()
        }
    } };
    Calc { run: native }
}

fn s(x: f32) -> F32 {
    F32 { bits: x.to_bits() }
}

fn d(x: f64) -> F64 {
    F64 { bits: x.to_bits() }
}

fn f(x: F32) -> f32 {
    f32::from_bits(x.bits)
}

fn g(x: F64) -> f64 {
    f64::from_bits(x.bits)
}

#[test]
fn parses_note_and_cc() {
    assert_eq!(parse(&[0x90, 60, 100]), Some(MidiMsg::NoteOn { note: 60, velocity: 100 }));
    assert_eq!(parse(&[0x90, 60, 0]), Some(MidiMsg::NoteOff { note: 60 }));
    assert_eq!(parse(&[0x81, 61, 0]), Some(MidiMsg::NoteOff { note: 61 }));
    assert_eq!(parse(&[0xB0, 21, 64]), Some(MidiMsg::Cc { cc: 21, value: 64 }));
    assert_eq!(parse(&[0xF8]), None);
    assert_eq!(parse(&[]), None);
}

#[test]
fn cut_short_messages_say_nothing() {
    assert_eq!(parse(&[0x95, 60]), None);
    assert_eq!(parse(&[0xB1, 60]), None);
    assert_eq!(parse(&[0x83, 60]), Some(MidiMsg::NoteOff { note: 60 }));
    assert_eq!(parse(&[0xE0, 1, 2]), None);
}

#[test]
fn cc_maps_into_param_range() {
    let c = calc();
    let mut p = Project::demo(&c);
    let target = CcTarget::ClipParam { track: 1, clip: 0, param: "density".to_string() };
    assert!(apply_cc(&c, &mut p, &target, 127));
    let (_, hi) = param_range("density").unwrap();
    assert!((f(p.tracks[1].clips[0].grains.density) - f(hi)).abs() < 1e-4);
    assert!(apply_cc(&c, &mut p, &target, 0));
    let (lo, _) = param_range("density").unwrap();
    assert!((f(p.tracks[1].clips[0].grains.density) - f(lo)).abs() < 1e-4);

    let lvl = CcTarget::TrackLevel { track: 0 };
    assert!(apply_cc(&c, &mut p, &lvl, 127));
    assert!((f(p.tracks[0].level) - 1.5).abs() < 1e-5);
    let bogus = CcTarget::TrackLevel { track: 99 };
    assert!(!apply_cc(&c, &mut p, &bogus, 64));
}

#[test]
fn mappings_have_labels() {
    let m = CcMapping {
        cc: None,
        target: CcTarget::ClipParam { track: 2, clip: 13, param: "spray".to_string() },
    };
    assert_eq!(m.target.label(), "spray (t2 c13)");
    assert_eq!(CcTarget::TrackLevel { track: 7 }.label(), "level (t7)");
    assert_eq!(m.target.clone(), m.target);
}

#[test]
fn unknown_parameters_change_nothing() {
    let c = calc();
    let mut p = Project::demo(&c);
    let before = f(p.tracks[0].clips[0].grains.density);
    let odd = CcTarget::ClipParam { track: 0, clip: 0, param: "seed".to_string() };
    assert!(!apply_cc(&c, &mut p, &odd, 64));
    let far = CcTarget::ClipParam { track: 0, clip: 99, param: "density".to_string() };
    assert!(!apply_cc(&c, &mut p, &far, 64));
    assert_eq!(f(p.tracks[0].clips[0].grains.density), before);
}

#[test]
fn bytes_after_the_third_do_not_matter() {
    assert_eq!(parse(&[0x90, 60, 100, 7, 7]), parse(&[0x9A, 60, 100]));
    assert_eq!(parse(&[0xB3, 21, 64, 1]), parse(&[0xB0, 21, 64]));
    assert_eq!(parse(&[0x8F, 61, 0, 200]), parse(&[0x80, 61, 0]));
}
