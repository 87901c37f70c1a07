#![allow(dead_code)]
use chromagrain::calc::{Calc, Op, Width};
use chromagrain::num::{F32, F64};
use chromagrain::fx::EffectKind;
use chromagrain::media::{wav_bytes, wav_from_bytes};
use chromagrain::render::render_project;
use chromagrain::script;
use chromagrain::script::{ClipRef, RenderTarget};
use chromagrain::seq::RowMode;
use chromagrain::timeline::{ClipKind, Project};

fn calc() -> Calc<impl Fn(Op, Width, u64, u64) -> u64> {
    let native = |o: Op, w: Width, a: u64, b: u64| -> u64 { match w {
        Width::Single => {
            let x = f32::from_bits(a as u32);
            let y = f32::from_bits(b as u32);
            let r = match o {
                Op::Add => x + y,
                Op::Sub => x - y,
                Op::Mul => x * y,
                Op::Div => x / y,
                Op::Rem => x % y,
                Op::RemEuclid => x.rem_euclid(y),
                Op::Sqrt => x.sqrt(),
                Op::Sin => x.sin(),
                Op::Cos => x.cos(),
                Op::Tanh => x.tanh(),
                Op::Pow => x.powf(y),
                Op::Log2 => x.log2(),
                Op::Exp => x.exp(),
                Op::Floor => x.floor(),
                Op::Ceil => x.ceil(),
                Op::Round => x.round(),
                Op::Fract => x.fract(),
                Op::FromInt => a as i64 as f32,
                Op::FromUint => a as f32,
                Op::ToInt => return x as i64 as u64,
                Op::ToUint => return x as u64,
                Op::Convert => return (x as f64).to_bits(),
            };
            r.to_bits() as u64
        }
        Width::Double => {
            let x = f64::from_bits(a);
            let y = f64::from_bits(b);
            let r = match o {
                Op::Add => x + y,
                Op::Sub => x - y,
                Op::Mul => x * y,
                Op::Div => x / y,
                Op::Rem => x % y,
                Op::RemEuclid => x.rem_euclid(y),
                Op::Sqrt => x.sqrt(),
                Op::Sin => x.sin(),
                Op::Cos => x.cos(),
                Op::Tanh => x.tanh(),
                Op::Pow => x.powf(y),
                Op::Log2 => x.log2(),
                Op::Exp => x.exp(),
                Op::Floor => x.floor(),
                Op::Ceil => x.ceil(),
                Op::Round => x.round(),
                Op::Fract => x.fract(),
                Op::FromInt => a as i64 as f64,
                Op::FromUint => a as f64,
                Op::ToInt => return x as i64 as u64,
                Op::ToUint => return x as u64,
                Op::Convert => return (x as f32).to_bits() as u64,
            };
            r.to_bits()
        }
    } };
    Calc { run: native }
}

fn s(x: f32) -> F32 {
    F32 { bits: x.to_bits() }
}

fn d(x: f64) -> F64 {
    F64 { bits: x.to_bits() }
}

fn f(x: F32) -> f32 {
    f32::from_bits(x.bits)
}

fn g(x: F64) -> f64 {
    f64::from_bits(x.bits)
}

fn session(bpm: f64) -> Project {
    let mut p = Project::default();
    script::set_bpm(&mut p, d(bpm));
    p
}

fn with_clip() -> (Project, ClipRef) {
    let c = calc();
    let mut p = session(120.0);
    let src = script::add_demo_source(&c, &mut p);
    let t = script::add_track(&mut p, "g");
    let clip = script::place_clip(&mut p, t, src, d(0.0), d(4.0)).unwrap();
    (p, clip)
}

fn says(r: Result<(), String>) -> String {
    r.unwrap_err()
}

#[test]
fn script_builds_project() {
    let c = calc();
    let (mut p, clip) = with_clip();
    script::set_key(&mut p, clip, "A", "minor_pentatonic").unwrap();
    script::set_param(&c, &mut p, clip, "density", d(30.0)).unwrap();
    script::set_param(&c, &mut p, clip, "pitch_jitter", d(12.0)).unwrap();
    script::add_audio_filter(&c, &mut p, clip, "lowpass", d(2000.0), d(0.8)).unwrap();
    script::color_keep(&c, &mut p, clip, d(200.0), d(120.0)).unwrap();
    assert_eq!(g(script::source_secs(&c, &p, 0)), 4.0);

    assert_eq!(g(p.bpm), 120.0);
    assert_eq!(p.sources.len(), 1);
    assert_eq!(p.tracks.len(), 1);
    let clip = &p.tracks[0].clips[0];
    assert!(clip.key.is_some());
    assert_eq!(f(clip.grains.density), 30.0);
    assert_eq!(f(clip.grains.pitch_jitter), 12.0);
    assert_eq!(clip.audio_filters.len(), 1);
    assert!(clip.color_filter.is_some());
}

#[test]
fn script_errors_are_reported() {
    let c = calc();
    let mut p = session(120.0);
    let t = script::add_track(&mut p, "g");
    let err = script::place_clip(&mut p, t, 99, d(0.0), d(4.0)).unwrap_err();
    assert!(err.contains("no source"), "err: {err}");

    let (mut p, clip) = with_clip();
    let err = script::set_param(&c, &mut p, clip, "densitty", d(30.0)).unwrap_err();
    assert!(err.contains("unknown parameter"), "err: {err}");
}

#[test]
fn script_snippets_effects_and_links() {
    let c = calc();
    let mut p = session(120.0);
    let src = script::add_demo_source(&c, &mut p);
    let t = script::add_track(&mut p, "g");
    let k = script::place_snippet(&mut p, t, src, d(0.0), d(4.0)).unwrap();
    script::set_param(&c, &mut p, k, "gain", d(0.5)).unwrap();
    script::set_param(&c, &mut p, k, "pan", d(-0.5)).unwrap();
    script::set_param(&c, &mut p, k, "gain_to_opacity", d(0.3)).unwrap();
    script::set_param(&c, &mut p, k, "pitch_to_hue", d(-18.0)).unwrap();
    let cr = script::add_effect(&mut p, k, "crush").unwrap();
    script::set_effect_param(&c, &mut p, k, cr, "bits", d(4.0)).unwrap();
    script::set_effect_param(&c, &mut p, k, cr, "video", d(0.7)).unwrap();
    let dl = script::add_effect(&mut p, k, "delay").unwrap();
    script::set_effect_param(&c, &mut p, k, dl, "time", d(0.4)).unwrap();
    let mr = script::add_master_effect(&mut p, "reverb").unwrap();
    script::set_master_effect_param(&c, &mut p, mr, "mix", d(0.5)).unwrap();

    let clip = &p.tracks[0].clips[0];
    assert_eq!(clip.kind, ClipKind::Snippet);
    assert_eq!(f(clip.grains.gain), 0.5);
    assert_eq!(f(clip.grains.pan), -0.5);
    assert_eq!(f(clip.link.gain_to_opacity), 0.3);
    assert_eq!(f(clip.link.pitch_to_hue), -18.0);
    assert_eq!(clip.effects.len(), 2);
    assert!(matches!(clip.effects[0].kind, EffectKind::Crush { bits, .. } if f(bits) == 4.0));
    assert_eq!(f(clip.effects[0].video), 0.7);
    assert!(matches!(
        clip.effects[1].kind,
        EffectKind::Delay { time, .. } if (f(time) - 0.4).abs() < 1e-6
    ));
    assert_eq!(p.master_effects.len(), 1);
    assert!(matches!(p.master_effects[0].kind, EffectKind::Reverb { mix, .. } if f(mix) == 0.5));

    let (mut p, clip) = with_clip();
    let err = says(script::set_effect_param(&c, &mut p, clip, 5, "time", d(0.4)));
    assert!(err.contains("no effect"), "err: {err}");
    assert_eq!(err, "no effect 5 on clip");
}

#[test]
fn script_tracks_and_patterns() {
    let c = calc();
    let mut p = session(120.0);
    let src = script::add_demo_source(&c, &mut p);
    let t = script::add_track(&mut p, "seq");
    script::set_track_level(&c, &mut p, t, d(0.7));
    script::set_opacity_link(&c, &mut p, t, d(0.5));
    let dl = script::add_track_effect(&mut p, t, "delay").unwrap();
    script::set_track_effect_param(&c, &mut p, t, dl, "time", d(0.25)).unwrap();
    script::set_quantize(&mut p, d(0.5));

    let pid = script::add_pattern(&mut p, "hits");
    script::set_pattern_grid(&c, &mut p, pid, d(4.0), 4).unwrap();
    let r = script::add_row(&c, &mut p, pid, src).unwrap();
    script::set_row_param(&c, &mut p, pid, r, "duration", d(0.3)).unwrap();
    script::set_row_key(&mut p, pid, r, "A", "minor_pentatonic").unwrap();
    script::set_step(&mut p, pid, r, 0, true).unwrap();
    script::set_step(&mut p, pid, r, 8, true).unwrap();
    script::set_step_pitch(&c, &mut p, pid, r, 8, d(12.0)).unwrap();
    script::set_step_gain(&c, &mut p, pid, r, 8, d(0.5)).unwrap();
    script::place_pattern(&mut p, t, pid, d(0.0), d(8.0)).unwrap();

    assert_eq!(g(p.quantize), 0.5);
    let t = &p.tracks[0];
    assert_eq!(f(t.level), 0.7);
    assert_eq!(f(t.level_to_opacity), 0.5);
    assert_eq!(t.effects.len(), 1);
    let pat = &p.patterns[0];
    assert_eq!(pat.rows.len(), 1);
    assert!(pat.rows[0].steps[0].on && pat.rows[0].steps[8].on);
    assert_eq!(f(pat.rows[0].steps[8].pitch), 12.0);
    assert_eq!(f(pat.rows[0].steps[8].gain), 0.5);
    assert!(pat.rows[0].key.is_some());
    assert!(matches!(t.clips[0].kind, ClipKind::Pattern(0)));
}

#[test]
fn script_automation_and_row_modes() {
    let c = calc();
    let mut p = session(120.0);
    let src = script::add_demo_source(&c, &mut p);
    let t = script::add_track(&mut p, "g");
    let k = script::place_clip(&mut p, t, src, d(0.0), d(8.0)).unwrap();
    script::automate(&c, &mut p, k, "density", d(0.0), d(5.0)).unwrap();
    script::automate(&c, &mut p, k, "density", d(8.0), d(60.0)).unwrap();
    script::automate(&c, &mut p, k, "gain", d(4.0), d(0.5)).unwrap();
    script::set_level_point(&c, &mut p, t, d(0.0), d(1.0)).unwrap();
    script::set_level_point(&c, &mut p, t, d(8.0), d(0.2)).unwrap();

    let pid = script::add_pattern(&mut p, "poly");
    let r = script::add_row(&c, &mut p, pid, src).unwrap();
    script::set_row_steps(&mut p, pid, r, 5).unwrap();
    script::set_step(&mut p, pid, r, 0, true).unwrap();
    let l = script::add_row(&c, &mut p, pid, src).unwrap();
    script::set_row_loop(&c, &mut p, pid, l, d(0.25), d(0.75)).unwrap();

    let clip = &p.tracks[0].clips[0];
    assert_eq!(clip.automation.len(), 2);
    let dens = clip.automation.iter().find(|l| l.param == "density").unwrap();
    assert_eq!(dens.points.len(), 2);
    assert!((g(dens.value_at(&c, d(4.0)).unwrap()) - 32.5).abs() < 1e-9);
    assert_eq!(p.tracks[0].level_points.len(), 2);
    assert!((f(p.tracks[0].level_at(&c, d(4.0))) - 0.6).abs() < 1e-6);

    let pat = &p.patterns[0];
    assert_eq!(pat.rows[0].steps.len(), 5);
    assert_eq!(pat.rows[1].mode, RowMode::Loop);
    assert!((f(pat.rows[1].loop_start) - 0.25).abs() < 1e-6);

    let (mut p, clip) = with_clip();
    let err = says(script::automate(&c, &mut p, clip, "seed", d(0.0), d(5.0)));
    assert!(err.contains("not automatable"), "err: {err}");
    assert_eq!(err, "'seed' is not automatable");
}

#[test]
fn script_renders_wav() {
    let c = calc();
    let mut p = session(120.0);
    let src = script::add_demo_source(&c, &mut p);
    let t = script::add_track(&mut p, "g");
    let k = script::place_clip(&mut p, t, src, d(0.0), d(2.0)).unwrap();
    script::set_param(&c, &mut p, k, "density", d(40.0)).unwrap();
    script::set_canvas(&c, &mut p, 64, 36, d(10.0));
    let out = render_project(&c, &p, d(0.0), d(2.0));
    assert_eq!(script::render_target("wav"), RenderTarget::Wav);
    let line = script::render_line(&c, &out.audio, out.frames.len(), "script-out.wav");
    assert!(line.contains("rendered"), "log: {line}");
    let rms = f(out.audio.rms(&c));
    assert_eq!(line, format!("rendered 1.0s (10 frames, rms {rms:.3}) -> script-out.wav\n"));
    let clip = wav_from_bytes(&c, &wav_bytes(&c, &out.audio).unwrap()).unwrap();
    assert!(g(clip.duration(&c)) > 0.9);
}

#[test]
fn renders_are_saved_by_extension() {
    assert_eq!(script::render_target("WAV"), RenderTarget::Wav);
    assert_eq!(script::render_target("Png"), RenderTarget::Png);
    assert_eq!(script::render_target("mp4"), RenderTarget::Video);
    assert_eq!(script::render_target(""), RenderTarget::Video);
}

#[test]
fn every_refusal_has_its_words() {
    let c = calc();
    let (mut p, clip) = with_clip();
    let nowhere = ClipRef { track: 7, index: 0 };
    let nothing = ClipRef { track: 0, index: 3 };
    assert_eq!(script::place_clip(&mut p, -1, 0, d(0.0), d(1.0)).unwrap_err(), "no track -1");
    assert_eq!(script::place_snippet(&mut p, 0, 5, d(0.0), d(1.0)).unwrap_err(), "no source 5");
    assert_eq!(script::place_pattern(&mut p, 0, 5, d(0.0), d(1.0)).unwrap_err(), "no pattern 5");
    assert_eq!(says(script::clear_key(&mut p, nowhere)), "no track 7");
    assert_eq!(says(script::clear_key(&mut p, nothing)), "no clip 3");
    assert_eq!(
        says(script::set_param(&c, &mut p, clip, "Foo Bar", d(0.0))),
        "unknown parameter 'foo_bar'"
    );
    assert_eq!(says(script::set_key(&mut p, clip, "H", "major")), "bad key: H major");
    assert_eq!(
        says(script::add_audio_filter(&c, &mut p, clip, "comb", d(1.0), d(1.0))),
        "bad filter kind: comb"
    );
    assert_eq!(script::add_effect(&mut p, clip, "fuzz").unwrap_err(), "unknown effect 'fuzz'");
    script::add_effect(&mut p, clip, "delay").unwrap();
    assert_eq!(
        says(script::set_effect_param(&c, &mut p, clip, 0, "bits", d(1.0))),
        "delay has no parameter 'bits'"
    );
    assert_eq!(script::add_track_effect(&mut p, 4, "delay").unwrap_err(), "no track 4");
    assert_eq!(
        says(script::set_track_effect_param(&c, &mut p, 0, 2, "mix", d(1.0))),
        "no effect 2 on track 0"
    );
    assert_eq!(
        says(script::set_master_effect_param(&c, &mut p, 1, "mix", d(1.0))),
        "no master effect 1"
    );
    assert_eq!(says(script::set_level_point(&c, &mut p, 9, d(0.0), d(1.0))), "no track 9");
    assert_eq!(says(script::set_pattern_grid(&c, &mut p, 2, d(4.0), 4)), "no pattern 2");
    assert_eq!(script::add_row(&c, &mut p, 0, 0).unwrap_err(), "no pattern 0");
    let pid = script::add_pattern(&mut p, "x");
    assert_eq!(script::add_row(&c, &mut p, pid, 3).unwrap_err(), "no source 3");
    assert_eq!(says(script::set_row_steps(&mut p, pid, 1, 4)), "no pattern 0 row 1");
    let r = script::add_row(&c, &mut p, pid, 0).unwrap();
    assert_eq!(says(script::set_step(&mut p, pid, r, 99, true)), "no step 99");
    assert_eq!(
        says(script::set_row_param(&c, &mut p, pid, r, "Nope", d(1.0))),
        "unknown row parameter 'Nope'"
    );
    assert_eq!(says(script::set_row_key(&mut p, pid, r, "A", "x")), "bad key: A x");
}

#[test]
fn refused_commands_change_nothing() {
    let c = calc();
    let (mut p, clip) = with_clip();
    script::set_param(&c, &mut p, clip, "gain", d(0.25)).unwrap();
    says(script::set_param(&c, &mut p, clip, "gian", d(0.75)));
    assert_eq!(f(p.tracks[0].clips[0].grains.gain), 0.25);
    script::set_track_level(&c, &mut p, 12, d(0.1));
    assert_eq!(f(p.tracks[0].level), 1.0);
}

#[test]
fn commands_leave_other_clips_alone() {
    let c = calc();
    let (mut p, a) = with_clip();
    let b = script::place_clip(&mut p, 0, 0, d(4.0), d(4.0)).unwrap();
    assert_eq!(b, ClipRef { track: 0, index: 1 });
    script::set_param(&c, &mut p, b, "density", d(3.0)).unwrap();
    assert_eq!(f(p.tracks[0].clips[0].grains.density), 20.0);
    assert_eq!(f(p.tracks[0].clips[1].grains.density), 3.0);
    script::set_transform(&c, &mut p, a, d(0.25), d(0.5), d(2.0), d(90.0)).unwrap();
    assert_eq!(f(p.tracks[0].clips[0].transform.scale), 2.0);
    script::color_remove(&c, &mut p, a, d(10.0), d(20.0)).unwrap();
    script::clear_color_filter(&mut p, a).unwrap();
    script::clear_audio_filters(&mut p, a).unwrap();
    script::clear_effects(&mut p, a).unwrap();
    script::clear_automation(&mut p, a, "density").unwrap();
    assert!(p.tracks[0].clips[0].color_filter.is_none());
    script::set_mute(&mut p, 0, true);
    assert!(p.tracks[0].muted);
    script::clear_level_points(&mut p, 0);
    script::add_master_effect(&mut p, "crush").unwrap();
    script::clear_master_effects(&mut p);
    assert!(p.master_effects.is_empty());
}

#[test]
fn canvases_are_kept_in_bounds() {
    let c = calc();
    let mut p = session(1.0);
    assert_eq!(g(p.bpm), 20.0);
    script::set_bpm(&mut p, d(1000.0));
    assert_eq!(g(p.bpm), 300.0);
    script::set_canvas(&c, &mut p, 1, 100000, d(1000.0));
    assert_eq!((p.width, p.height, f(p.fps)), (16, 4096, 60.0));
    script::set_quantize(&mut p, d(0.0));
    assert_eq!(g(p.quantize), 0.0625);
}

#[test]
fn synth_sources_are_added() {
    let c = calc();
    let mut p = session(120.0);
    assert_eq!(script::add_sine_source(&c, &mut p, d(220.0), d(0.5)), 0);
    assert_eq!(p.sources[0].name, "sine 220Hz");
    assert_eq!(g(script::base_hz(&c, &p, 0)), 220.0);
    assert_eq!(script::add_fm_source(&c, &mut p, d(110.0), d(2.0), d(1.0), d(0.5)), 1);
    assert_eq!(script::add_noise_source(&c, &mut p, d(0.5), d(0.5)), 2);
    assert_eq!(p.sources[2].name, "noise c0.50");
    script::set_base_hz(&c, &mut p, 2, d(440.0));
    assert_eq!(f(p.sources[2].base_hz), 440.0);
    assert_eq!(g(script::source_secs(&c, &p, 8)), 0.0);
    assert_eq!(g(script::base_hz(&c, &p, 8)), 0.0);
}

#[test]
fn rows_switch_between_modes() {
    let c = calc();
    let (mut p, _) = with_clip();
    let pid = script::add_pattern(&mut p, "x");
    let r = script::add_row(&c, &mut p, pid, 0).unwrap();
    script::set_row_loop(&c, &mut p, pid, r, d(0.9), d(0.1)).unwrap();
    assert_eq!(p.patterns[0].rows[0].mode, RowMode::Loop);
    assert!(f(p.patterns[0].rows[0].loop_end) > f(p.patterns[0].rows[0].loop_start));
    script::set_row_steps_mode(&mut p, pid, r).unwrap();
    assert_eq!(p.patterns[0].rows[0].mode, RowMode::Steps);
}

#[test]
fn printed_lines_are_logged_in_order() {
    let mut log = String::new();
    script::print_line(&mut log, "one");
    script::print_line(&mut log, "");
    script::print_line(&mut log, "two");
    assert_eq!(log, "one\n\ntwo\n");
}
