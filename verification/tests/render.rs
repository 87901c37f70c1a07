#![allow(dead_code)]
use chromagrain::calc::{Calc, Op, Width};
use chromagrain::num::{F32, F64};
use chromagrain::audio::AudioClip;
use chromagrain::auto::{AutoPoint, AutomationLane};
use chromagrain::dsp::detect_pitch;
use chromagrain::fx::{AvEffect, EffectKind};
use chromagrain::grain::GrainEvent;
use chromagrain::render::{plan_project, render_project, RenderOutput};
use chromagrain::seq::StepPattern;
use chromagrain::timeline::{Clip, ClipKind, Project, Source};
use chromagrain::video::{Frame, VideoClip};
use std::sync::Arc;

fn calc() -> Calc<impl Fn(Op, Width, u64, u64) -> u64> {
    let native = |o: Op, w: Width, a: u64, b: u64| -> u64 { match w {
        Width::Single => {
            let x = f32::from_bits(a as u32);
            let y = f32::from_bits(b as u32);
            let r = match o {
                Op::Add => x + y,
                Op::Sub => x - y,
                Op::Mul => x * y,
                Op::Div => x / y,
                Op::Rem => x % y,
                Op::RemEuclid => x.rem_euclid(y),
                Op::Sqrt => x.sqrt(),
                Op::Sin => x.sin(),
                Op::Cos => x.cos(),
                Op::Tanh => x.tanh(),
                Op::Pow => x.powf(y),
                Op::Log2 => x.log2(),
                Op::Exp => x.exp(),
                Op::Floor => x.floor(),
                Op::Ceil => x.ceil(),
                Op::Round => x.round(),
                Op::Fract => x.fract(),
                Op::FromInt => a as i64 as f32,
                Op::FromUint => a as f32,
                Op::ToInt => return x as i64 as u64,
                Op::ToUint => return x as u64,
                Op::Convert => return (x as f64).to_bits(),
            };
            r.to_bits() as u64
        }
        Width::Double => {
            let x = f64::from_bits(a);
            let y = f64::from_bits(b);
            let r = match o {
                Op::Add => x + y,
                Op::Sub => x - y,
                Op::Mul => x * y,
                Op::Div => x / y,
                Op::Rem => x % y,
                Op::RemEuclid => x.rem_euclid(y),
                Op::Sqrt => x.sqrt(),
                Op::Sin => x.sin(),
                Op::Cos => x.cos(),
                Op::Tanh => x.tanh(),
                Op::Pow => x.powf(y),
                Op::Log2 => x.log2(),
                Op::Exp => x.exp(),
                Op::Floor => x.floor(),
                Op::Ceil => x.ceil(),
                Op::Round => x.round(),
                Op::Fract => x.fract(),
                Op::FromInt => a as i64 as f64,
                Op::FromUint => a as f64,
                Op::ToInt => return x as i64 as u64,
                Op::ToUint => return x as u64,
                Op::Convert => return (x as f32).to_bits() as u64,
            };
            r.to_bits()
        }
    } };
    Calc { run: native }
}

fn s(x: f32) -> F32 {
    F32 { bits: x.to_bits() }
}

fn d(x: f64) -> F64 {
    F64 { bits: x.to_bits() }
}

fn f(x: F32) -> f32 {
    f32::from_bits(x.bits)
}

fn g(x: F64) -> f64 {
    f64::from_bits(x.bits)
}

fn project(width: u32, height: u32) -> Project {
    Project { bpm: d(120.0), width, height, fps: s(12.0), ..Default::default() }
}

fn source(name: &str, audio: AudioClip, video: VideoClip, hz: f32) -> Source {
    Source {
        name: name.to_string(),
        audio: Some(Arc::new(audio)),
        video: Some(Arc::new(video)),
        base_hz: s(hz),
    }
}

fn render(p: &Project, from: f64, to: f64) -> RenderOutput {
    render_project(&calc(), p, d(from), d(to))
}

fn luma(x: &Frame) -> f32 {
    f(x.mean_luma(&calc()))
}

fn rms(out: &RenderOutput) -> f32 {
    f(out.audio.rms(&calc()))
}

fn middle(out: &RenderOutput) -> &Frame {
    &out.frames[out.frames.len() / 2]
}

fn loudness(out: &RenderOutput, a: usize, b: usize) -> f32 {
    (out.audio.left[a..b].iter().map(|x| f(*x) * f(*x)).sum::<f32>() / (b - a) as f32).sqrt()
}

fn echo() -> AvEffect {
    AvEffect::new(EffectKind::Delay {
        time: s(0.75),
        feedback: s(0.6),
        mix: s(0.9),
        shift_x: s(0.05),
        shift_y: s(0.0),
    })
}

#[test]
fn render_demo_project_renders_audio_and_video() {
    let p = Project::demo(&calc());
    let out = render(&p, 0.0, 8.0);
    assert!(rms(&out) > 0.005, "audio rms {}", rms(&out));
    assert!(f(out.audio.peak()) <= 1.001, "soft clip holds");
    assert!(!out.frames.is_empty());
    assert!(luma(middle(&out)) > 0.5, "mid frame luma {}", luma(middle(&out)));
    assert!(out.events.len() >= 4);
    assert!(out.events.iter().all(|e| !e.is_empty()));
}

#[test]
fn render_render_window_excludes_outside_clips() {
    let p = Project::demo(&calc());
    let out = render(&p, 100.0, 104.0);
    assert!(rms(&out) < 1e-6);
    assert!(out.frames.iter().all(|x| luma(x) < 0.5));
}

#[test]
fn offline_render_full_demo() {
    let c = calc();
    let p = Project::demo(&c);
    let out = render(&p, 0.0, 8.0);
    let secs = g(p.beats_to_secs(&c, d(8.0)));
    assert!((g(out.audio.duration(&c)) - secs).abs() < 0.1);
    assert_eq!(out.frames.len(), (secs * f(p.fps) as f64).ceil() as usize);
    assert!(rms(&out) > 0.005);
    assert!(out.frames.iter().any(|x| luma(x) > 1.0));
}

fn snippet_project() -> Project {
    let c = calc();
    let mut p = project(96, 54);
    let src = source(
        "src",
        AudioClip::sine(&c, s(220.0), s(4.0), p.sample_rate),
        VideoClip::test_pattern(&c, 96, 54, s(12.0), s(4.0)),
        220.0,
    );
    let sid = p.add_source(src);
    let tid = p.add_track("snip");
    p.tracks[tid].clips.push(Clip::new_snippet(sid, d(0.0), d(4.0)));
    p
}

#[test]
fn snippet_plays_source_straight() {
    let p = snippet_project();
    let out = render(&p, 0.0, 4.0);
    let mono: Vec<F32> =
        out.audio.left.iter().zip(&out.audio.right).map(|(l, r)| s(f(*l) + f(*r))).collect();
    let pitch = f(detect_pitch(&calc(), &mono, p.sample_rate).expect("pitch"));
    assert!((pitch - 220.0).abs() < 8.0, "snippet pitch {pitch}");
    assert!(luma(middle(&out)) > 20.0, "snippet fills frame: {}", luma(middle(&out)));
}

#[test]
fn snippet_gain_drives_both_loudness_and_opacity() {
    let mut quiet = snippet_project();
    quiet.tracks[0].clips[0].grains.gain = s(0.3);
    let mut loud = snippet_project();
    loud.tracks[0].clips[0].grains.gain = s(1.0);

    let out_q = render(&quiet, 0.0, 4.0);
    let out_l = render(&loud, 0.0, 4.0);
    assert!(rms(&out_l) > rms(&out_q) * 2.0);
    let mq = luma(middle(&out_q));
    let ml = luma(middle(&out_l));
    assert!(ml > mq * 1.8, "loud {ml} vs quiet {mq}");

    let mut unlinked = snippet_project();
    unlinked.tracks[0].clips[0].grains.gain = s(0.3);
    unlinked.tracks[0].clips[0].link.gain_to_opacity = s(0.0);
    let out_u = render(&unlinked, 0.0, 4.0);
    let mu = luma(middle(&out_u));
    assert!((mu - ml).abs() < ml * 0.2, "unlinked as bright as loud: {mu} vs {ml}");
    assert!(rms(&out_u) < rms(&out_l) * 0.6);
}

#[test]
fn clip_effect_chain_applies_to_both_domains() {
    let mut p = snippet_project();
    p.tracks[0].clips[0]
        .effects
        .push(AvEffect::new(EffectKind::Crush { downsample: s(10.0), bits: s(3.0) }));
    let out = render(&p, 0.0, 4.0);
    let plain = render(&snippet_project(), 0.0, 4.0);

    let mid = out.audio.len() / 2;
    assert_eq!(f(out.audio.left[mid]), f(out.audio.left[mid + 1]));
    assert_ne!(f(plain.audio.left[mid]), f(plain.audio.left[mid + 1]));

    assert_eq!(middle(&out).get(0, 0), middle(&out).get(5, 5));
    assert_ne!(middle(&plain).get(0, 0), middle(&plain).get(5, 5));
}

#[test]
fn delay_effect_rings_past_clip_end_in_both_domains() {
    let mut p = snippet_project();
    p.tracks[0].clips[0].length_beats = d(1.0);
    p.tracks[0].clips[0].effects.push(echo());
    let out = render(&p, 0.0, 4.0);
    let sr = p.sample_rate as f64;
    let gap = loudness(&out, (0.55 * sr) as usize, (0.7 * sr) as usize);
    let ring = loudness(&out, (0.9 * sr) as usize, (1.2 * sr) as usize);
    assert!(ring > gap * 2.0 + 1e-4, "audio echo {ring} vs gap {gap}");

    let at = |t: f64| luma(&out.frames[(t * f(p.fps) as f64) as usize]);
    assert!(at(1.0) > at(0.65) + 2.0, "visual echo {} vs gap {}", at(1.0), at(0.65));
}

#[test]
fn track_effect_chain_applies_to_whole_track() {
    let mut p = snippet_project();
    p.tracks[0].clips[0].length_beats = d(1.0);
    p.tracks[0].effects.push(echo());
    let out = render(&p, 0.0, 4.0);
    let sr = p.sample_rate as f64;
    let gap = loudness(&out, (0.55 * sr) as usize, (0.7 * sr) as usize);
    let ring = loudness(&out, (0.9 * sr) as usize, (1.2 * sr) as usize);
    assert!(ring > gap * 2.0 + 1e-4, "track audio echo {ring} vs gap {gap}");

    let at = |t: f64| luma(&out.frames[(t * f(p.fps) as f64) as usize]);
    assert!(at(1.0) > at(0.65) + 2.0, "track visual echo");
}

fn solid_video(r: u8, gr: u8, b: u8) -> VideoClip {
    let mut x = Frame::black(32, 24);
    for px in x.data.chunks_exact_mut(4) {
        px[0] = r;
        px[1] = gr;
        px[2] = b;
    }
    VideoClip { frames: vec![x; 12], fps: s(12.0) }
}

fn two_track_project(order_red_first: bool) -> Project {
    let c = calc();
    let mut p = project(32, 24);
    let rate = p.sample_rate;
    let red = p.add_source(source(
        "red",
        AudioClip::sine(&c, s(220.0), s(2.0), rate),
        solid_video(220, 30, 30),
        220.0,
    ));
    let blue = p.add_source(source(
        "blue",
        AudioClip::sine(&c, s(330.0), s(2.0), rate),
        solid_video(30, 30, 220),
        330.0,
    ));
    let order = if order_red_first { [red, blue] } else { [blue, red] };
    for sid in order {
        let t = p.add_track("t");
        let mut clip = Clip::new_snippet(sid, d(0.0), d(2.0));
        clip.grains.envelope = s(0.01);
        p.tracks[t].clips.push(clip);
    }
    p
}

#[test]
fn track_order_is_video_z_order() {
    let out1 = render(&two_track_project(true), 0.0, 2.0);
    let px1 = middle(&out1).get(16, 12);
    assert!(px1[2] > px1[0] + 50, "blue on top: {px1:?}");

    let out2 = render(&two_track_project(false), 0.0, 2.0);
    let px2 = middle(&out2).get(16, 12);
    assert!(px2[0] > px2[2] + 50, "red on top after reorder: {px2:?}");
}

#[test]
fn track_level_drives_gain_and_opacity() {
    let mut full = snippet_project();
    full.tracks[0].level = s(1.0);
    let mut dim = snippet_project();
    dim.tracks[0].level = s(0.35);

    let out_f = render(&full, 0.0, 4.0);
    let out_d = render(&dim, 0.0, 4.0);
    assert!(rms(&out_d) < rms(&out_f) * 0.55, "level ducks audio");
    let lf = luma(middle(&out_f));
    let ld = luma(middle(&out_d));
    assert!(ld < lf * 0.6, "level ducks video too: {ld} vs {lf}");

    let mut unlinked = snippet_project();
    unlinked.tracks[0].level = s(0.35);
    unlinked.tracks[0].level_to_opacity = s(0.0);
    let out_u = render(&unlinked, 0.0, 4.0);
    let lu = luma(middle(&out_u));
    assert!((lu - lf).abs() < lf * 0.15, "unlinked stays bright: {lu} vs {lf}");
    assert!(rms(&out_u) < rms(&out_f) * 0.55, "audio still ducked");
}

#[test]
fn grain_automation_morphs_the_cloud() {
    let c = calc();
    let mut p = snippet_project();
    let clip = &mut p.tracks[0].clips[0];
    clip.kind = ClipKind::Granular;
    clip.grains.density = s(10.0);
    let mut dens = AutomationLane::new("density");
    dens.set_point(&c, d(0.0), d(4.0));
    dens.set_point(&c, d(8.0), d(60.0));
    let mut gain = AutomationLane::new("gain");
    gain.set_point(&c, d(0.0), d(1.2));
    gain.set_point(&c, d(8.0), d(0.05));
    clip.automation = vec![dens, gain];
    clip.length_beats = d(8.0);

    let out = render(&p, 0.0, 8.0);
    let ev = &out.events[0];
    let mid = 2.0;
    let first: Vec<&GrainEvent> = ev.iter().filter(|e| g(e.onset) < mid).collect();
    let second: Vec<&GrainEvent> = ev.iter().filter(|e| g(e.onset) >= mid).collect();
    assert!(
        second.len() > first.len() * 2,
        "density ramp: {} then {}",
        first.len(),
        second.len()
    );
    let avg = |v: &Vec<&GrainEvent>| -> f32 {
        v.iter().map(|e| f(e.gain)).sum::<f32>() / v.len().max(1) as f32
    };
    assert!(avg(&first) > avg(&second) * 2.0, "gain fade: {} -> {}", avg(&first), avg(&second));
}

#[test]
fn track_level_automation_fades_audio_and_video() {
    let mut p = snippet_project();
    p.tracks[0].level_points = vec![
        AutoPoint { beat: d(0.0), value: d(1.0) },
        AutoPoint { beat: d(8.0), value: d(0.0) },
    ];
    p.tracks[0].clips[0].length_beats = d(8.0);
    let out = render(&p, 0.0, 8.0);
    let sr = p.sample_rate as usize;
    let early = loudness(&out, sr / 2, sr);
    let late = loudness(&out, 3 * sr, 3 * sr + sr / 2);
    assert!(late < early * 0.4, "audio fades: {early} -> {late}");
    let f_early = luma(&out.frames[(0.75 * f(p.fps) as f64) as usize]);
    let f_late = luma(&out.frames[(3.25 * f(p.fps) as f64) as usize]);
    assert!(f_late < f_early * 0.5, "video fades: {f_early} -> {f_late}");
}

#[test]
fn pattern_clip_renders_beat_quantized_hits() {
    let c = calc();
    let mut p = project(64, 36);
    let rate = p.sample_rate;
    let sid = p.add_source(source(
        "s",
        AudioClip::sine(&c, s(440.0), s(2.0), rate),
        VideoClip::test_pattern(&c, 64, 36, s(12.0), s(2.0)),
        440.0,
    ));
    let mut pat = StepPattern::new("p");
    let r = pat.add_row(&c, sid);
    pat.rows[r].grains.duration = s(0.15);
    for i in (0..16).step_by(4) {
        pat.rows[r].steps[i].on = true;
    }
    let pid = p.add_pattern(pat);
    let t = p.add_track("seq");
    p.tracks[t].clips.push(Clip::new_pattern(pid, d(0.0), d(8.0)));

    let out = render(&p, 0.0, 8.0);
    let sr = p.sample_rate as f64;
    let seg = |a: f64, b: f64| loudness(&out, (a * sr) as usize, (b * sr) as usize);
    for k in 0..4 {
        let on = seg(k as f64 * 0.5 + 0.01, k as f64 * 0.5 + 0.12);
        let off = seg(k as f64 * 0.5 + 0.3, k as f64 * 0.5 + 0.45);
        assert!(on > off * 3.0 + 1e-4, "hit {k}: on {on} off {off}");
    }
    let f_on = luma(&out.frames[7]);
    let f_off = luma(&out.frames[4]);
    assert!(f_on > f_off + 1.0, "visual hit {f_on} vs gap {f_off}");
}

#[test]
fn muted_tracks_are_left_out() {
    let mut p = snippet_project();
    assert_eq!(plan_project(&calc(), &p).len(), 1);
    p.tracks[0].muted = true;
    let out = render(&p, 0.0, 1.0);
    assert_eq!(rms(&out), 0.0);
    assert!(out.frames.iter().all(|x| luma(x) == 0.0));
}

#[test]
fn timeline_beat_time_conversion() {
    let c = calc();
    let p = Project { bpm: d(120.0), ..Default::default() };
    assert!((g(p.beats_to_secs(&c, d(4.0))) - 2.0).abs() < 1e-9);
    assert!((g(p.secs_to_beats(&c, d(2.0))) - 4.0).abs() < 1e-9);
}

#[test]
fn timeline_demo_project_is_well_formed() {
    let c = calc();
    let p = Project::demo(&c);
    assert!(!p.sources.is_empty());
    assert!(!p.tracks.is_empty());
    assert!(g(p.end_beat(&c)) >= 8.0);
    for track in &p.tracks {
        for clip in &track.clips {
            assert!(clip.source < p.sources.len());
            assert!(g(p.sources[clip.source].duration(&c)) > 0.0);
        }
    }
}

#[test]
fn a_new_project_is_empty() {
    let p = Project::default();
    assert_eq!(g(p.bpm), 110.0);
    assert_eq!((p.width, p.height, p.sample_rate), (640, 360, 48000));
    assert_eq!(g(p.end_beat(&calc())), 0.0);
    assert_eq!(p.sources.len() + p.tracks.len() + p.patterns.len(), 0);
}

#[test]
fn windows_that_nothing_reaches_are_silent_and_black() {
    let mut p = Project::demo(&calc());
    p.tracks[0].effects.push(echo());
    p.tracks[0].effects.push(AvEffect::new(EffectKind::Reverb { size: s(0.7), damp: s(0.3), mix: s(0.5) }));
    let out = render(&p, 100.0, 104.0);
    assert!(!out.frames.is_empty() && !out.audio.left.is_empty());
    assert!(out.audio.left.iter().chain(&out.audio.right).all(|x| f(*x) == 0.0));
    for frame in &out.frames {
        assert!(frame.data.chunks(4).all(|px| px[..3] == [0, 0, 0]));
    }
}

#[test]
fn compressors_keep_silence() {
    let mut p = Project::demo(&calc());
    for quality in [0.0, 0.3] {
        let mut fx = AvEffect::new(EffectKind::Compress { quality: s(quality) });
        fx.video = s(0.0);
        p.tracks[0].effects.push(fx);
    }
    let out = render(&p, 200.0, 201.0);
    assert!(!out.audio.left.is_empty());
    assert!(out.audio.left.iter().chain(&out.audio.right).all(|x| f(*x) == 0.0));
}
