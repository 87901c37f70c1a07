#![allow(dead_code)]
use chromagrain::calc::{Calc, Op, Width};
use chromagrain::num::{F32, F64};
use chromagrain::grain::{schedule_grains, GrainEvent, GrainSettings};
use chromagrain::timeline::ClipTransform;
use chromagrain::video::{
    blend_layer, blend_layer_over, composite_grains_frame, grain_draws, hsv_to_rgb, rgb_to_hsv, AvLink,
    ColorFilter, Frame, VideoClip, VisualGrainStyle,
};

fn calc() -> Calc<impl Fn(Op, Width, u64, u64) -> u64> {
    let native = |o: Op, w: Width, a: u64, b: u64| -> u64 { match w {
        Width::Single => {
            let x = f32::from_bits(a as u32);
            let y = f32::from_bits(b as u32);
            let r = match o {
                Op::Add => x + y,
                Op::Sub => x - y,
                Op::Mul => x * y,
                Op::Div => x / y,
                Op::Rem => x % y,
                Op::RemEuclid => x.rem_euclid(y),
                Op::Sqrt => x.sqrt(),
                Op::Sin => x.sin(),
                Op::Cos => x.cos(),
                Op::Tanh => x.tanh(),
                Op::Pow => x.powf(y),
                Op::Log2 => x.log2(),
                Op::Exp => x.exp(),
                Op::Floor => x.floor(),
                Op::Ceil => x.ceil(),
                Op::Round => x.round(),
                Op::Fract => x.fract(),
                Op::FromInt => a as i64 as f32,
                Op::FromUint => a as f32,
                Op::ToInt => return x as i64 as u64,
                Op::ToUint => return x as u64,
                Op::Convert => return (x as f64).to_bits(),
            };
            r.to_bits() as u64
        }
        Width::Double => {
            let x = f64::from_bits(a);
            let y = f64::from_bits(b);
            let r = match o {
                Op::Add => x + y,
                Op::Sub => x - y,
                Op::Mul => x * y,
                Op::Div => x / y,
                Op::Rem => x % y,
                Op::RemEuclid => x.rem_euclid(y),
                Op::Sqrt => x.sqrt(),
                Op::Sin => x.sin(),
                Op::Cos => x.cos(),
                Op::Tanh => x.tanh(),
                Op::Pow => x.powf(y),
                Op::Log2 => x.log2(),
                Op::Exp => x.exp(),
                Op::Floor => x.floor(),
                Op::Ceil => x.ceil(),
                Op::Round => x.round(),
                Op::Fract => x.fract(),
                Op::FromInt => a as i64 as f64,
                Op::FromUint => a as f64,
                Op::ToInt => return x as i64 as u64,
                Op::ToUint => return x as u64,
                Op::Convert => return (x as f32).to_bits() as u64,
            };
            r.to_bits()
        }
    } };
    Calc { run: native }
}

fn s(x: f32) -> F32 {
    F32 { bits: x.to_bits() }
}

fn d(x: f64) -> F64 {
    F64 { bits: x.to_bits() }
}

fn f(x: F32) -> f32 {
    f32::from_bits(x.bits)
}

fn g(x: F64) -> f64 {
    f64::from_bits(x.bits)
}

#[test]
fn hsv_roundtrip() {
    let c = calc();
    for (r, gr, b) in [(255u8, 0u8, 0u8), (0, 255, 0), (12, 200, 130), (250, 250, 250)] {
        let (h, sat, v) = rgb_to_hsv(&c, r, gr, b);
        let (r2, g2, b2) = hsv_to_rgb(&c, h, sat, v);
        assert!((r as i32 - r2 as i32).abs() <= 2, "{r} vs {r2}");
        assert!((gr as i32 - g2 as i32).abs() <= 2);
        assert!((b as i32 - b2 as i32).abs() <= 2);
    }
}

#[test]
fn color_filter_keep_and_remove() {
    let c = calc();
    let keep = ColorFilter::keep(s(0.0), s(60.0));
    let remove = ColorFilter::remove(s(0.0), s(60.0));
    assert!(f(keep.mask(&c, 255, 0, 0)) > 0.9);
    assert!(f(remove.mask(&c, 255, 0, 0)) < 0.1);
    assert!(f(keep.mask(&c, 0, 255, 0)) < 0.1);
    assert!(f(remove.mask(&c, 0, 255, 0)) > 0.9);
    assert!(f(keep.mask(&c, 128, 128, 128)) < 0.1);
    assert!(f(remove.mask(&c, 128, 128, 128)) > 0.9);
}

#[test]
fn hue_wraparound_in_filter() {
    let c = calc();
    let q = ColorFilter::keep(s(350.0), s(40.0));
    let (r, gr, b) = hsv_to_rgb(&c, s(5.0), s(1.0), s(1.0));
    assert!(f(q.mask(&c, r, gr, b)) > 0.5);
    let (r, gr, b) = hsv_to_rgb(&c, s(180.0), s(1.0), s(1.0));
    assert!(f(q.mask(&c, r, gr, b)) < 0.1);
}

fn render_layer_at(
    clip: &VideoClip,
    events: &Vec<GrainEvent>,
    style: &VisualGrainStyle,
    link: &AvLink,
    cf: Option<ColorFilter>,
    t: f64,
) -> Frame {
    let c = calc();
    let mut layer = Frame::transparent(96, 72);
    composite_grains_frame(
        &c,
        clip,
        events,
        style,
        link,
        &ClipTransform::default(),
        &cf,
        &mut layer,
        d(t),
    );
    let mut out = Frame::black(96, 72);
    blend_layer(&c, &mut out, &layer, style.additive, s(1.0));
    out
}

fn luma(x: &Frame) -> f32 {
    f(x.mean_luma(&calc()))
}

#[test]
fn compositor_draws_active_grains() {
    let c = calc();
    let clip = VideoClip::test_pattern(&c, 64, 48, s(12.0), s(2.0));
    let settings = GrainSettings { density: s(25.0), ..Default::default() };
    let events =
        schedule_grains(&c, &settings, d(0.0), d(1.0), clip.duration(&c), s(440.0), None);
    let style = VisualGrainStyle::default();
    let link = AvLink::default();

    let active = render_layer_at(&clip, &events, &style, &link, None, 0.5);
    let idle = render_layer_at(&clip, &events, &style, &link, None, 500.0);

    assert!(luma(&active) > 1.0, "grains should light up the frame");
    assert!(luma(&idle) < 0.5, "no grains active -> black frame");
}

#[test]
fn compositor_respects_color_filter() {
    let c = calc();
    let clip = VideoClip::test_pattern(&c, 64, 48, s(12.0), s(2.0));
    let settings = GrainSettings { density: s(40.0), ..Default::default() };
    let events =
        schedule_grains(&c, &settings, d(0.0), d(1.0), clip.duration(&c), s(440.0), None);
    let style = VisualGrainStyle::default();
    let link = AvLink { pitch_to_hue: s(0.0), ..Default::default() };

    let unfiltered = render_layer_at(&clip, &events, &style, &link, None, 0.4);
    let cf = ColorFilter { sat_min: s(0.99), ..ColorFilter::keep(s(200.0), s(2.0)) };
    let filtered = render_layer_at(&clip, &events, &style, &link, Some(cf), 0.4);

    assert!(luma(&filtered) < luma(&unfiltered) * 0.2 + 1.0);
}

fn grain(source_pos: f64, pitch_ratio: f32, gain: f32) -> GrainEvent {
    GrainEvent {
        onset: d(0.0),
        source_pos: d(source_pos),
        duration: s(1.0),
        pitch_ratio: s(pitch_ratio),
        gain: s(gain),
        pan: s(0.0),
        envelope: s(0.2),
        env_skew: s(0.0),
        reverse: false,
        id: 0,
    }
}

#[test]
fn gain_to_opacity_link_is_configurable() {
    let c = calc();
    let clip = VideoClip::test_pattern(&c, 64, 48, s(12.0), s(2.0));
    let ev = vec![grain(0.5, 1.0, 0.25)];
    let style = VisualGrainStyle { additive: s(0.0), ..Default::default() };
    let linked = render_layer_at(&clip, &ev, &style, &AvLink::default(), None, 0.5);
    let unlinked_link = AvLink { gain_to_opacity: s(0.0), ..Default::default() };
    let unlinked = render_layer_at(&clip, &ev, &style, &unlinked_link, None, 0.5);
    assert!(
        luma(&unlinked) > luma(&linked) * 2.0,
        "unlinked {} vs linked {}",
        luma(&unlinked),
        luma(&linked)
    );
}

#[test]
fn pitch_to_hue_link_is_configurable() {
    let c = calc();
    let clip = VideoClip::test_pattern(&c, 64, 48, s(12.0), s(2.0));
    let ev = vec![grain(0.2, 2.0, 1.0)];
    let style = VisualGrainStyle { additive: s(0.0), ..Default::default() };
    let with = |hue: f32| AvLink {
        pitch_to_hue: s(hue),
        pitch_to_rate: s(0.0),
        ..Default::default()
    };
    let shifted = render_layer_at(&clip, &ev, &style, &with(15.0), None, 0.5);
    let unshifted = render_layer_at(&clip, &ev, &style, &with(0.0), None, 0.5);
    assert_ne!(shifted.data, unshifted.data, "hue link should change colors");
}

#[test]
fn link_param_setter() {
    let mut link = AvLink::default();
    link.set_param("gain_to_opacity", s(0.5)).unwrap();
    link.set_param("pitch_to_hue", s(-20.0)).unwrap();
    link.set_param("reverse_video", s(0.0)).unwrap();
    assert_eq!(f(link.gain_to_opacity), 0.5);
    assert_eq!(f(link.pitch_to_hue), -20.0);
    assert!(!link.reverse_video);
    assert!(link.set_param("bogus", s(1.0)).is_err());
}

#[test]
fn test_pattern_has_content() {
    let c = calc();
    let clip = VideoClip::test_pattern(&c, 32, 24, s(10.0), s(1.0));
    assert_eq!(clip.frames.len(), 10);
    assert!(luma(&clip.frames[0]) > 10.0);
    assert!(clip.frame_at(&c, d(0.05)).is_some());
    assert!(clip.frame_at(&c, d(100.0)).is_some());
}

#[test]
fn what_was_put_is_read_back() {
    let mut x = Frame::black(5, 3);
    x.put(4, 2, [1, 2, 3, 4]);
    assert_eq!(x.get(4, 2), [1, 2, 3, 4]);
    assert_eq!(x.get(3, 2), [0, 0, 0, 255]);
    assert_eq!(&x.data[56..60], &[1, 2, 3, 4]);
    assert_eq!(x.area(), 15);
}

#[test]
fn frames_wrap_both_ways() {
    let c = calc();
    let clip = VideoClip::test_pattern(&c, 4, 2, s(10.0), s(1.0));
    let at = |t: f64| clip.frame_at(&c, d(t)).unwrap().data.clone();
    assert_eq!(at(1.25), clip.frames[2].data);
    assert_eq!(at(-0.05), clip.frames[9].data);
    let none = VideoClip { frames: vec![], fps: s(10.0) };
    assert!(none.frame_at(&c, d(0.0)).is_none());
    assert_eq!(g(none.duration(&c)), 0.0);
}

#[test]
fn a_faint_layer_changes_nothing() {
    let c = calc();
    let clip = VideoClip::test_pattern(&c, 8, 4, s(10.0), s(0.1));
    let mut x = clip.frames[0].clone();
    blend_layer_over(&c, &mut x, &Frame::transparent(8, 4), s(0.0));
    assert_eq!(x.data, clip.frames[0].data);
    blend_layer(&c, &mut x, &Frame::black(8, 4), s(0.0), s(0.0));
    assert_eq!(x.data, clip.frames[0].data);
}

#[test]
fn a_color_filter_fades_pixels() {
    let c = calc();
    let mut x = Frame::black(2, 1);
    x.put(0, 0, [255, 0, 0, 255]);
    x.put(1, 0, [0, 255, 0, 200]);
    ColorFilter::keep(s(0.0), s(60.0)).apply(&c, &mut x);
    assert_eq!(x.get(0, 0), [255, 0, 0, 255]);
    assert_eq!(x.get(1, 0)[3], 0);
}

#[test]
fn draws_follow_the_transform() {
    let c = calc();
    let ev = grain(0.5, 1.0, 1.0);
    let (style, link) = (VisualGrainStyle::full_frame(s(0.0)), AvLink::default());
    let events = vec![ev];
    let mid = 0.5 * g(ev.end(&c));
    let still = ClipTransform::default();
    let at = |t: f64, tf: &ClipTransform| {
        grain_draws(&calc(), &events, &style, &link, tf, d(2.0), d(t), s(1.0))
    };
    assert!(at(g(ev.end(&c)), &still).is_empty());
    let plain = at(mid, &still);
    assert_eq!(plain.len(), 1);
    assert_eq!((f(plain[0].dest.w), f(plain[0].patch.w)), (1.0, 1.0));
    let moved = at(mid, &ClipTransform { x: s(1.0), scale: s(0.5), ..still });
    assert_eq!(f(moved[0].dest.w), 0.5);
    let shift = f(moved[0].dest.x) + 0.25 - (f(plain[0].dest.x) + 0.5);
    let off = f(plain[0].dest.x);
    assert!((shift - (0.5 - 0.5 * off)).abs() < 1e-6);
}

#[test]
fn a_default_clip_is_empty() {
    let v = VideoClip::default();
    assert!(v.frames.is_empty());
    assert_eq!(f(v.fps), 0.0);
    assert_eq!(g(v.duration(&calc())), 0.0);
    assert!(v.frame_at(&calc(), d(0.0)).is_none());
}

#[test]
fn keeping_and_removing_share_out() {
    let c = calc();
    let keep = ColorFilter::keep(s(100.0), s(70.0));
    let remove = ColorFilter::remove(s(100.0), s(70.0));
    for r in (0..=255u32).step_by(17) {
        for gr in (0..=255u32).step_by(51) {
            for b in (0..=255u32).step_by(85) {
                let (r, gr, b) = (r as u8, gr as u8, b as u8);
                let k = f(keep.mask(&c, r, gr, b));
                let m = f(remove.mask(&c, r, gr, b));
                assert!((0.0..=1.0).contains(&k) && (0.0..=1.0).contains(&m));
                assert_eq!(m, 1.0 - k);
                assert_eq!(k + m, 1.0);
            }
        }
    }
    for grey in [0u8, 60, 128, 255] {
        assert_eq!(f(keep.mask(&c, grey, grey, grey)), 0.0);
        assert_eq!(f(remove.mask(&c, grey, grey, grey)), 1.0);
    }
}

#[test]
fn keeping_and_removing_share_out_far_from_the_wheel() {
    let c = calc();
    for center in [-1e30f32, -720.5, 1e9, f32::MAX] {
        for width in [-f32::MAX, -1.0, 0.0, 1e-30, 1e20, f32::MAX] {
            let (keep, remove) = (ColorFilter::keep(s(center), s(width)), ColorFilter::remove(s(center), s(width)));
            for (r, gr, b) in [(255u8, 0u8, 0u8), (12, 200, 90), (77, 77, 77)] {
                let (k, m) = (f(keep.mask(&c, r, gr, b)), f(remove.mask(&c, r, gr, b)));
                assert!((0.0..=1.0).contains(&k) && (0.0..=1.0).contains(&m));
                assert_eq!(k + m, 1.0);
            }
        }
    }
}
