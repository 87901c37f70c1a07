#![allow(dead_code)]
use chromagrain::calc::{Calc, Op, Width};
use chromagrain::num::{F32, F64};
use chromagrain::fx::{AvEffect, EffectKind};
use chromagrain::preview::{
    clip_scope, effect_key, track_scope, upload, DctStep, FxInst, Pass, Preview, Surface, Texture,
    MASTER_SCOPE, MAX_HISTORY, MAX_SRC_LAYERS,
};
use chromagrain::render::plan_project;
use chromagrain::timeline::{Clip, Project, Source};
use chromagrain::video::{Frame, VideoClip};
use std::sync::Arc;

fn calc() -> Calc<impl Fn(Op, Width, u64, u64) -> u64> {
    let native = |o: Op, w: Width, a: u64, b: u64| -> u64 { match w {
        Width::Single => {
            let x = f32::from_bits(a as u32);
            let y = f32::from_bits(b as u32);
            let r = match o {
                Op::Add => x + y,
                Op::Sub => x - y,
                Op::Mul => x * y,
                Op::Div => x / y,
                Op::Rem => x % y,
                Op::RemEuclid => x.rem_euclid(y),
                Op::Sqrt => x.sqrt(),
                Op::Sin => x.sin(),
                Op::Cos => x.cos(),
                Op::Tanh => x.tanh(),
                Op::Pow => x.powf(y),
                Op::Log2 => x.log2(),
                Op::Exp => x.exp(),
                Op::Floor => x.floor(),
                Op::Ceil => x.ceil(),
                Op::Round => x.round(),
                Op::Fract => x.fract(),
                Op::FromInt => a as i64 as f32,
                Op::FromUint => a as f32,
                Op::ToInt => return x as i64 as u64,
                Op::ToUint => return x as u64,
                Op::Convert => return (x as f64).to_bits(),
            };
            r.to_bits() as u64
        }
        Width::Double => {
            let x = f64::from_bits(a);
            let y = f64::from_bits(b);
            let r = match o {
                Op::Add => x + y,
                Op::Sub => x - y,
                Op::Mul => x * y,
                Op::Div => x / y,
                Op::Rem => x % y,
                Op::RemEuclid => x.rem_euclid(y),
                Op::Sqrt => x.sqrt(),
                Op::Sin => x.sin(),
                Op::Cos => x.cos(),
                Op::Tanh => x.tanh(),
                Op::Pow => x.powf(y),
                Op::Log2 => x.log2(),
                Op::Exp => x.exp(),
                Op::Floor => x.floor(),
                Op::Ceil => x.ceil(),
                Op::Round => x.round(),
                Op::Fract => x.fract(),
                Op::FromInt => a as i64 as f64,
                Op::FromUint => a as f64,
                Op::ToInt => return x as i64 as u64,
                Op::ToUint => return x as u64,
                Op::Convert => return (x as f32).to_bits() as u64,
            };
            r.to_bits()
        }
    } };
    Calc { run: native }
}

fn s(x: f32) -> F32 {
    F32 { bits: x.to_bits() }
}

fn d(x: f64) -> F64 {
    F64 { bits: x.to_bits() }
}

fn f(x: F32) -> f32 {
    f32::from_bits(x.bits)
}

fn g(x: F64) -> f64 {
    f64::from_bits(x.bits)
}

fn project() -> Project {
    let c = calc();
    let mut p = Project { bpm: d(120.0), width: 32, height: 24, ..Default::default() };
    let sid = p.add_source(Source {
        name: "s".to_string(),
        audio: None,
        video: Some(Arc::new(VideoClip::test_pattern(&c, 16, 12, s(12.0), s(2.0)))),
        base_hz: s(0.0),
    });
    let t = p.add_track("t");
    p.tracks[t].clips.push(Clip::new_snippet(sid, d(0.0), d(4.0)));
    p
}

fn delay(secs: f32) -> AvEffect {
    AvEffect::new(EffectKind::Delay {
        time: s(secs),
        feedback: s(0.5),
        mix: s(0.5),
        shift_x: s(0.1),
        shift_y: s(0.2),
    })
}

#[test]
fn long_sources_are_thinned_out() {
    let c = calc();
    let v = VideoClip { frames: vec![Frame::black(4, 2); 400], fps: s(10.0) };
    let up = upload(&c, &v).unwrap();
    assert_eq!((up.width, up.height, up.layers), (4, 2, MAX_SRC_LAYERS));
    assert_eq!(up.data.len(), MAX_SRC_LAYERS * 4 * 2 * 4);
    assert_eq!(g(up.duration), 40.0);
    assert!(upload(&c, &VideoClip { frames: vec![], fps: s(10.0) }).is_none());
}

#[test]
fn wide_sources_are_scaled_down() {
    let c = calc();
    let mut x = Frame::black(2048, 2);
    x.put(2047, 1, [9, 8, 7, 255]);
    let up = upload(&c, &VideoClip { frames: vec![x], fps: s(10.0) }).unwrap();
    assert!(up.width < 2048);
    assert_eq!(up.data.len(), (up.width * up.height * 4) as usize);
}

#[test]
fn history_looks_back_by_its_length() {
    let mut h = FxInst { slots: 0, head: 0, filled: 0, side: 0 };
    let mut slots = Vec::new();
    for i in 0..7 {
        assert_eq!(h.history_tail(3).is_some(), i >= 3);
        if i >= 3 {
            assert_eq!(h.history_tail(3).unwrap(), slots[i - 3]);
        }
        slots.push(h.push_history(3));
    }
    assert_eq!(slots, vec![0, 1, 2, 0, 1, 2, 0]);
    let mut h = FxInst { slots: 0, head: 0, filled: 0, side: 0 };
    for _ in 0..100 {
        assert!(h.push_history(MAX_HISTORY) < MAX_HISTORY);
    }
}

#[test]
fn scenes_start_cleared_and_end_presented() {
    let c = calc();
    let p = project();
    let plan = plan_project(&c, &p);
    let textures = vec![Some(Texture { layers: 24, duration: d(2.0) })];
    let mut v = Preview::new();
    v.paint(&c, &p, &plan, &textures, d(0.5), true);
    assert!(matches!(v.passes[0], Pass::Clear { to: Surface::Master, opaque: true }));
    assert!(matches!(v.passes[v.passes.len() - 1], Pass::Present { from: Surface::Master }));
    let quads = v.passes.iter().filter(|x| matches!(x, Pass::Quad { .. })).count();
    assert_eq!(quads, 1);
    let source = v.passes.iter().filter(|x| matches!(x, Pass::Source { id: 0, .. })).count();
    assert_eq!(source, 1);
    let out = v.passes.iter().filter(|x| {
        matches!(x, Pass::Blend { from: Surface::Track, to: Surface::Master, .. })
    });
    assert_eq!(out.count(), 1);

    v.paint(&c, &p, &plan, &textures, d(50.0), true);
    assert_eq!(v.passes.len(), 3);
    assert!(matches!(v.passes[1], Pass::Clear { to: Surface::Track, opaque: false }));
}

#[test]
fn muted_tracks_draw_nothing() {
    let c = calc();
    let mut p = project();
    p.tracks[0].muted = true;
    let plan = plan_project(&c, &p);
    let mut v = Preview::new();
    v.paint(&c, &p, &plan, &vec![None], d(0.5), true);
    assert_eq!(v.passes.len(), 2);
}

#[test]
fn delays_echo_once_they_remember_enough() {
    let c = calc();
    let chain = vec![delay(0.2)];
    let mut v = Preview::new();
    let key = effect_key(MASTER_SCOPE, 0);
    for i in 0..5 {
        v.passes = Vec::new();
        let to = v.apply_chain(&c, &chain, MASTER_SCOPE, Surface::Master, s(10.0), true);
        assert_eq!(to, Surface::Ping);
        let echo = v.passes.iter().find_map(|x| match x {
            Pass::Delay { echo, .. } => Some(*echo),
            _ => None,
        });
        let slot = echo.unwrap();
        if i < 2 {
            assert_eq!(slot, None);
        } else {
            assert_eq!(slot, Some(Surface::History { key, slot: i % 2 }));
        }
        assert!(v.passes.iter().any(|x| matches!(x, Pass::Record { .. })));
    }
}

#[test]
fn smears_swap_their_sides() {
    let c = calc();
    let chain =
        vec![AvEffect::new(EffectKind::Reverb { size: s(0.5), damp: s(0.5), mix: s(0.5) })];
    let mut v = Preview::new();
    let mut sides = Vec::new();
    for _ in 0..3 {
        v.passes = Vec::new();
        v.apply_chain(&c, &chain, 1, Surface::Clip, s(10.0), true);
        for x in &v.passes {
            if let Pass::Gather { to: Surface::Accum { side, .. }, .. } = x {
                sides.push(*side);
            }
        }
    }
    assert_eq!(sides, vec![1, 0, 1]);
}

#[test]
fn compression_needs_coefficients() {
    let c = calc();
    let chain = vec![AvEffect::new(EffectKind::Compress { quality: s(0.2) })];
    let mut v = Preview::new();
    assert_eq!(v.apply_chain(&c, &chain, 1, Surface::Clip, s(10.0), false), Surface::Clip);
    assert!(v.passes.is_empty());
    assert_eq!(v.apply_chain(&c, &chain, 1, Surface::Clip, s(10.0), true), Surface::Ping);
    let steps: Vec<DctStep> = v.passes.iter().filter_map(|x| match x {
        Pass::Dct { step, .. } => Some(*step),
        _ => None,
    }).collect();
    assert_eq!(
        steps,
        vec![DctStep::Rows, DctStep::Columns, DctStep::InverseColumns, DctStep::InverseRows]
    );
}

#[test]
fn chains_never_read_what_they_draw_on() {
    let c = calc();
    let crush = AvEffect::new(EffectKind::Crush { downsample: s(4.0), bits: s(4.0) });
    let mut v = Preview::new();
    let last = v.apply_chain(&c, &vec![crush, crush, crush], 1, Surface::Clip, s(10.0), true);
    let mut from = Surface::Clip;
    for x in &v.passes {
        if let Pass::Crush { from: a, to: b, .. } = x {
            assert_eq!(*a, from);
            assert_ne!(a, b);
            from = *b;
        }
    }
    assert_eq!(last, from);
}

#[test]
fn scopes_have_their_own_keys() {
    assert_eq!(clip_scope(0, 0), 1);
    assert_eq!(clip_scope(1, 2), (1 << 20) | 3);
    assert_eq!(track_scope(1), 2 << 32);
    assert_eq!(effect_key(1, 0), 1 ^ (1 << 40));
    assert_ne!(effect_key(1, 0), effect_key(1, 1));
}
