#![allow(dead_code)]
use chromagrain::calc::{Calc, Op, Width};
use chromagrain::num::{F32, F64};
use chromagrain::edit::{
    add_effect, add_filter, clip_face, color_filter_of, color_mode, grid_of, hit_clip,
    loaded_line, quantize_label, remove_effect, remove_filter, saves_sound_alone, set_key_on,
    snapped, AddKind, Desk, Rows,
};
use chromagrain::grain::GrainSettings;
use chromagrain::seq::RowMode;
use chromagrain::timeline::{Clip, ClipKind, Project};

fn calc() -> Calc<impl Fn(Op, Width, u64, u64) -> u64> {
    let native = |o: Op, w: Width, a: u64, b: u64| -> u64 { match w {
        Width::Single => {
            let x = f32::from_bits(a as u32);
            let y = f32::from_bits(b as u32);
            let r = match o {
                Op::Add => x + y,
                Op::Sub => x - y,
                Op::Mul => x * y,
                Op::Div => x / y,
                Op::Rem => x % y,
                Op::RemEuclid => x.rem_euclid(y),
                Op::Sqrt => x.sqrt(),
                Op::Sin => x.sin(),
                Op::Cos => x.cos(),
                Op::Tanh => x.tanh(),
                Op::Pow => x.powf(y),
                Op::Log2 => x.log2(),
                Op::Exp => x.exp(),
                Op::Floor => x.floor(),
                Op::Ceil => x.ceil(),
                Op::Round => x.round(),
                Op::Fract => x.fract(),
                Op::FromInt => a as i64 as f32,
                Op::FromUint => a as f32,
                Op::ToInt => return x as i64 as u64,
                Op::ToUint => return x as u64,
                Op::Convert => return (x as f64).to_bits(),
            };
            r.to_bits() as u64
        }
        Width::Double => {
            let x = f64::from_bits(a);
            let y = f64::from_bits(b);
            let r = match o {
                Op::Add => x + y,
                Op::Sub => x - y,
                Op::Mul => x * y,
                Op::Div => x / y,
                Op::Rem => x % y,
                Op::RemEuclid => x.rem_euclid(y),
                Op::Sqrt => x.sqrt(),
                Op::Sin => x.sin(),
                Op::Cos => x.cos(),
                Op::Tanh => x.tanh(),
                Op::Pow => x.powf(y),
                Op::Log2 => x.log2(),
                Op::Exp => x.exp(),
                Op::Floor => x.floor(),
                Op::Ceil => x.ceil(),
                Op::Round => x.round(),
                Op::Fract => x.fract(),
                Op::FromInt => a as i64 as f64,
                Op::FromUint => a as f64,
                Op::ToInt => return x as i64 as u64,
                Op::ToUint => return x as u64,
                Op::Convert => return (x as f32).to_bits() as u64,
            };
            r.to_bits()
        }
    } };
    Calc { run: native }
}

fn s(x: f32) -> F32 {
    F32 { bits: x.to_bits() }
}

fn d(x: f64) -> F64 {
    F64 { bits: x.to_bits() }
}

fn f(x: F32) -> f32 {
    f32::from_bits(x.bits)
}

fn g(x: F64) -> f64 {
    f64::from_bits(x.bits)
}

fn names(p: &Project) -> Vec<String> {
    p.tracks.iter().map(|t| t.name.clone()).collect()
}

fn start(p: &Project, t: usize, i: usize) -> f64 {
    g(p.tracks[t].clips[i].start_beat)
}

#[test]
fn a_project_is_built_at_the_desk() {
    let c = calc();
    let mut p = Project::default();
    let mut desk = Desk::new();
    desk.add_clip(&mut p, AddKind::Granular);
    assert!(p.tracks.is_empty());
    desk.add_demo(&c, &mut p);
    desk.add_track(&mut p);
    desk.add_track(&mut p);
    assert_eq!(names(&p), vec!["track 1", "track 2"]);
    desk.selected_track = 1;
    desk.playhead_beats = d(2.0);
    desk.add_clip(&mut p, AddKind::Snippet);
    assert_eq!(desk.selected_clip, Some((1, 0)));
    assert_eq!(p.tracks[1].clips[0].kind, ClipKind::Snippet);
    assert_eq!(start(&p, 1, 0), 2.0);
    assert_eq!(g(p.tracks[1].clips[0].length_beats), 4.0);
    desk.add_clip(&mut p, AddKind::Pattern);
    assert_eq!(p.tracks[1].clips.len(), 1);
    desk.add_pattern(&c, &mut p);
    desk.add_clip(&mut p, AddKind::Pattern);
    assert_eq!(p.tracks[1].clips[1].kind, ClipKind::Pattern(0));
    desk.selected_track = 9;
    desk.add_clip(&mut p, AddKind::Granular);
    assert_eq!(p.tracks[1].clips.len(), 3);
}

#[test]
fn edits_are_taken_up_once() {
    let mut desk = Desk::new();
    assert!(!desk.takes_up());
    desk.edited();
    assert!(desk.takes_up());
    assert!(!desk.takes_up());
}

#[test]
fn loops_go_forward() {
    let mut desk = Desk::new();
    assert!(desk.loop_region().is_none());
    desk.loop_on = true;
    assert_eq!(desk.loop_region().map(|(a, b)| (g(a), g(b))), Some((0.0, 8.0)));
    desk.loop_start = d(8.0);
    assert!(desk.loop_region().is_none());
}

#[test]
fn tracks_move_up_and_down() {
    let mut p = Project::default();
    let mut desk = Desk::new();
    for _ in 0..3 {
        desk.add_track(&mut p);
    }
    let was = names(&p);
    desk.raise_track(&mut p, 1);
    assert_eq!(names(&p), vec!["track 2", "track 1", "track 3"]);
    desk.lower_track(&mut p, 0);
    assert_eq!(names(&p), was);
}

#[test]
fn presses_drags_and_releases() {
    let c = calc();
    let mut p = Project::demo(&c);
    let mut desk = Desk::new();
    let rows = Rows { origin: s(10.0), ruler: s(20.0), height: s(40.0) };
    assert_eq!(hit_clip(&c, &p, rows, d(1.0), s(35.0)), Some((0, 0)));
    assert_eq!(hit_clip(&c, &p, rows, d(1.0), s(25.0)), None);
    assert_eq!(hit_clip(&c, &p, rows, d(100.0), s(35.0)), None);
    let last = p.tracks.len() - 1;
    let y = s(30.0 + 40.0 * last as f32);
    assert_eq!(hit_clip(&c, &p, rows, d(1.0), y), Some((last, 0)));
    p.tracks[0].clips.push(Clip::new(0, d(0.5), d(1.0)));
    assert_eq!(hit_clip(&c, &p, rows, d(1.0), s(35.0)), Some((0, 1)));

    assert!(!desk.press(&c, Some((1, 0)), d(0.0), d(0.25)));
    assert_eq!((desk.selected_track, desk.selected_clip), (1, Some((1, 0))));
    desk.drag(&c, &mut p, d(1.3));
    assert!((start(&p, 1, 0) - 1.3).abs() < 1e-9);
    desk.release(&c, &mut p, d(0.25));
    assert_eq!(start(&p, 1, 0), 1.25);
    desk.drag(&c, &mut p, d(-9.0));
    assert_eq!(start(&p, 1, 0), 0.0);
    assert!(desk.press(&c, None, d(2.13), d(0.25)));
    assert_eq!((g(desk.playhead_beats), desk.selected_clip), (2.25, None));
    desk.drag(&c, &mut p, d(5.0));
    assert_eq!(start(&p, 1, 0), 0.0);
}

#[test]
fn selected_clips_are_deleted() {
    let c = calc();
    let mut p = Project::demo(&c);
    let mut desk = Desk::new();
    desk.delete_clip(&mut p);
    assert!(p.tracks[0].clips.is_empty());
    assert_eq!(desk.selected_clip, None);
}

#[test]
fn steps_are_toggled_twice() {
    let c = calc();
    let mut p = Project::demo(&c);
    let mut desk = Desk::new();
    let pid = desk.pattern_to_edit(&p);
    let was = p.patterns[pid].rows[0].steps[1].on;
    desk.toggle_step(&mut p, pid, 0, 1);
    assert_eq!(p.patterns[pid].rows[0].steps[1].on, !was);
    desk.toggle_step(&mut p, pid, 0, 1);
    assert_eq!(p.patterns[pid].rows[0].steps[1].on, was);
    let n = p.patterns[pid].rows.len();
    desk.add_row(&c, &mut p, pid);
    assert_eq!(p.patterns[pid].rows.len(), n + 1);
    desk.remove_row(&mut p, pid, 0);
    assert_eq!(p.patterns[pid].rows.len(), n);
}

#[test]
fn grids_have_names() {
    assert_eq!(quantize_label(d(1.0)), "1/4");
    assert_eq!(quantize_label(d(0.5)), "1/8");
    assert_eq!(quantize_label(d(0.25)), "1/16");
    assert_eq!(quantize_label(d(0.125)), "1/32");
    assert_eq!(g(grid_of(d(0.0))), 0.0625);
    assert_eq!(g(snapped(&calc(), d(1.4), d(0.5))), 1.5);
}

#[test]
fn clips_and_sources_are_described() {
    let c = calc();
    let clip = Clip::new(0, d(0.0), d(1.0));
    let (label, dim) = clip_face(&c, &clip, false);
    let (_, bright) = clip_face(&c, &clip, true);
    assert_eq!(label, "grains");
    assert!(bright.0 > dim.0);
    assert_eq!(clip_face(&c, &Clip::new_pattern(0, d(0.0), d(1.0)), false).0, "pattern");
    assert_eq!(loaded_line("a", s(0.0)), "loaded 'a'");
    assert_eq!(loaded_line("a", s(440.04)), "loaded 'a' (base pitch ≈ 440.0 Hz)");
    assert!(saves_sound_alone(true, true) && saves_sound_alone(false, false));
    assert!(!saves_sound_alone(false, true));
}

#[test]
fn a_clip_is_inspected() {
    let mut clip = Clip::new(0, d(0.0), d(1.0));
    set_key_on(&mut clip, true);
    assert!(clip.key.is_some());
    set_key_on(&mut clip, false);
    assert!(clip.key.is_none());
    add_filter(&mut clip);
    assert_eq!(f(clip.audio_filters[0].freq), 2000.0);
    remove_filter(&mut clip, 0);
    assert!(clip.audio_filters.is_empty());
    for mode in 0..3 {
        assert_eq!(color_mode(&color_filter_of(mode)), mode);
    }
    assert!(add_effect(&mut clip.effects, "Reverb"));
    assert!(!add_effect(&mut clip.effects, "fuzz"));
    remove_effect(&mut clip.effects, 0);
    assert!(clip.effects.is_empty());
}

#[test]
fn added_clips_have_their_presets() {
    let c = calc();
    let mut p = Project::default();
    let mut desk = Desk::new();
    desk.add_demo(&c, &mut p);
    desk.add_track(&mut p);
    desk.add_pattern(&c, &mut p);
    desk.add_clip(&mut p, AddKind::Granular);
    desk.add_clip(&mut p, AddKind::Snippet);
    desk.add_clip(&mut p, AddKind::Pattern);
    let clips = &p.tracks[0].clips;
    assert_eq!(clips[0].grains, GrainSettings::default());
    assert_eq!(f(clips[0].grains.gain), 0.8);
    assert_eq!(f(clips[1].grains.envelope), 0.05);
    assert_eq!(f(clips[1].grains.pan_spread), 0.0);
    assert_eq!(
        clips[1].grains,
        GrainSettings { envelope: s(0.05), pan_spread: s(0.0), ..Default::default() }
    );
    assert_eq!(clips[2].grains, GrainSettings::default());
}

#[test]
fn added_patterns_have_a_row_of_steps() {
    let c = calc();
    let mut p = Project::default();
    let mut desk = Desk::new();
    desk.add_pattern(&c, &mut p);
    assert!(p.patterns[0].rows.is_empty());
    desk.add_demo(&c, &mut p);
    desk.add_pattern(&c, &mut p);
    desk.add_row(&c, &mut p, 1);
    assert_eq!(p.patterns[1].rows.len(), 2);
    for row in &p.patterns[1].rows {
        assert_eq!(row.source, 0);
        assert_eq!(row.mode, RowMode::Steps);
        assert_eq!(row.steps.len(), 16);
        assert!(row.steps.iter().all(|step| !step.on));
        assert!(row.key.is_none());
        assert_eq!((f(row.loop_start), f(row.loop_end)), (0.0, 1.0));
    }
    desk.toggle_step(&mut p, 1, 0, 3);
    assert!(p.patterns[1].rows[0].steps[3].on);
}

#[test]
fn a_copied_project_holds_the_same() {
    let c = calc();
    let p = Project::demo(&c);
    let q = p.clone();
    assert_eq!(names(&p), names(&q));
    assert_eq!((q.width, q.height, g(q.bpm)), (480, 270, 100.0));
    assert_eq!(q.sources[0].name, p.sources[0].name);
    for (a, b) in p.tracks.iter().zip(&q.tracks) {
        assert_eq!(a.clips[0].kind, b.clips[0].kind);
        assert_eq!(a.clips[0].grains, b.clips[0].grains);
        assert_eq!(f(a.level), f(b.level));
    }
    for (a, b) in p.patterns[0].rows.iter().zip(&q.patterns[0].rows) {
        assert_eq!(a.steps, b.steps);
        assert_eq!(a.grains, b.grains);
    }
}
