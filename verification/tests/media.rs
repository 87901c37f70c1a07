#![allow(dead_code)]
use chromagrain::calc::{Calc, Op, Width};
use chromagrain::num::{F32, F64};
use chromagrain::audio::{AudioClip, StereoBuffer};
use chromagrain::media::{
    apply_masks, bake_masks, decode_size, downloaded_file, encode_size, even_size, feather,
    feather_radius, fetched_name, is_wav, loaded_source, mixdown, parse_pgm, parse_video_size, pcm_of, png_bytes, require_media,
    sample_of, samples_from_le, segment_cmd, segmented_name, segmented_source,
    silent_sound, size_text, split_words, wav_bytes, wav_clip, wav_from_bytes, FrameFeed, MaskFrame,
};
use chromagrain::video::{Frame, VideoClip};
use std::io::Cursor;

fn calc() -> Calc<impl Fn(Op, Width, u64, u64) -> u64> {
    let native = |o: Op, w: Width, a: u64, b: u64| -> u64 { match w {
        Width::Single => {
            let x = f32::from_bits(a as u32);
            let y = f32::from_bits(b as u32);
            let r = match o {
                Op::Add => x + y,
                Op::Sub => x - y,
                Op::Mul => x * y,
                Op::Div => x / y,
                Op::Rem => x % y,
                Op::RemEuclid => x.rem_euclid(y),
                Op::Sqrt => x.sqrt(),
                Op::Sin => x.sin(),
                Op::Cos => x.cos(),
                Op::Tanh => x.tanh(),
                Op::Pow => x.powf(y),
                Op::Log2 => x.log2(),
                Op::Exp => x.exp(),
                Op::Floor => x.floor(),
                Op::Ceil => x.ceil(),
                Op::Round => x.round(),
                Op::Fract => x.fract(),
                Op::FromInt => a as i64 as f32,
                Op::FromUint => a as f32,
                Op::ToInt => return x as i64 as u64,
                Op::ToUint => return x as u64,
                Op::Convert => return (x as f64).to_bits(),
            };
            r.to_bits() as u64
        }
        Width::Double => {
            let x = f64::from_bits(a);
            let y = f64::from_bits(b);
            let r = match o {
                Op::Add => x + y,
                Op::Sub => x - y,
                Op::Mul => x * y,
                Op::Div => x / y,
                Op::Rem => x % y,
                Op::RemEuclid => x.rem_euclid(y),
                Op::Sqrt => x.sqrt(),
                Op::Sin => x.sin(),
                Op::Cos => x.cos(),
                Op::Tanh => x.tanh(),
                Op::Pow => x.powf(y),
                Op::Log2 => x.log2(),
                Op::Exp => x.exp(),
                Op::Floor => x.floor(),
                Op::Ceil => x.ceil(),
                Op::Round => x.round(),
                Op::Fract => x.fract(),
                Op::FromInt => a as i64 as f64,
                Op::FromUint => a as f64,
                Op::ToInt => return x as i64 as u64,
                Op::ToUint => return x as u64,
                Op::Convert => return (x as f32).to_bits() as u64,
            };
            r.to_bits()
        }
    } };
    Calc { run: native }
}

fn s(x: f32) -> F32 {
    F32 { bits: x.to_bits() }
}

fn d(x: f64) -> F64 {
    F64 { bits: x.to_bits() }
}

fn f(x: F32) -> f32 {
    f32::from_bits(x.bits)
}

fn g(x: F64) -> f64 {
    f64::from_bits(x.bits)
}

#[test]
fn wav_roundtrip() {
    let c = calc();
    let clip = AudioClip::sine(&c, s(440.0), s(0.5), 48000);
    let mut buf = StereoBuffer::new(&c, d(0.5), 48000);
    for i in 0..buf.len().min(clip.samples.len()) {
        buf.left[i] = clip.samples[i];
        buf.right[i] = clip.samples[i];
    }
    let bytes = wav_bytes(&c, &buf).unwrap();

    let loaded = wav_from_bytes(&c, &bytes).unwrap();
    assert_eq!(loaded.sample_rate, 48000);
    assert!((g(loaded.duration(&c)) - 0.5).abs() < 0.01);
    let rms = |v: &[F32]| (v.iter().map(|x| f(*x) * f(*x)).sum::<f32>() / v.len() as f32).sqrt();
    assert!((rms(&clip.samples) - rms(&loaded.samples)).abs() < 0.02);
}

#[test]
fn pgm_roundtrip_and_masks_bake_into_alpha() {
    let c = calc();
    let mut bytes = b"P5\n# comment\n4 2\n255\n".to_vec();
    bytes.extend_from_slice(&[0, 0, 255, 255, 0, 0, 255, 255]);
    let m = parse_pgm(&bytes).unwrap();
    assert_eq!((m.width, m.height), (4, 2));
    assert_eq!(m.data, vec![0, 0, 255, 255, 0, 0, 255, 255]);

    let clip = VideoClip::test_pattern(&c, 8, 4, s(10.0), s(0.3));
    let out = apply_masks(&clip, &vec![m]);
    assert_eq!(out.frames.len(), clip.frames.len());
    let x = &out.frames[0];
    let a = |u: u32, v: u32| x.data[((v * x.width + u) * 4 + 3) as usize];
    assert_eq!(a(0, 0), 0, "left half transparent");
    assert_eq!(a(3, 3), 0);
    assert_eq!(a(4, 0), 255, "right half opaque");
    assert_eq!(a(7, 3), 255);
    assert_eq!(x.data[0], clip.frames[0].data[0]);
}

#[test]
fn segment_pipeline_with_stub_sidecar() {
    let c = calc();
    let (w, h) = (16usize, 12usize);
    let mut masks = Vec::new();
    for _ in 0..4 {
        let mut bytes = format!("P5\n{w} {h}\n255\n").into_bytes();
        bytes.extend(vec![0u8; w * (h / 2)]);
        bytes.extend(vec![255u8; w * (h - h / 2)]);
        masks.push(parse_pgm(&bytes).unwrap());
    }
    let src = VideoClip::test_pattern(&c, 32, 24, s(10.0), s(0.5));
    let v = bake_masks(&src, masks, 3);
    assert_eq!(segmented_name("cat", "pat"), "cat @ pat");
    assert_eq!(v.frames.len(), src.frames.len());
    let x = &v.frames[0];
    let a = |u: u32, v: u32| x.data[((v * x.width + u) * 4 + 3) as usize];
    assert!(a(5, 1) < 30, "top should be transparent, got {}", a(5, 1));
    assert!(a(5, 22) > 225, "bottom should be opaque, got {}", a(5, 22));
    let mid = a(5, 12);
    assert!(mid > 30 && mid < 225, "edge should be feathered, got {mid}");
}

#[test]
fn png_save() {
    let x = VideoClip::test_pattern(&calc(), 32, 24, s(10.0), s(0.2)).frames[0].clone();
    let bytes = png_bytes(&x).unwrap();
    assert!(bytes.len() > 100);
    assert_eq!(&bytes[..8], &[0x89, b'P', b'N', b'G', b'\r', b'\n', 0x1a, b'\n']);
    let back = image::load_from_memory(&bytes).unwrap().to_rgba8();
    assert_eq!((back.width(), back.height()), (32, 24));
    assert_eq!(back.into_raw(), x.data);
}

#[test]
fn bad_frames_are_not_saved() {
    let x = Frame { width: 4, height: 4, data: vec![0; 63] };
    assert_eq!(png_bytes(&x).unwrap_err(), "bad frame dimensions");
    let x = Frame { width: 0, height: 4, data: vec![] };
    assert!(png_bytes(&x).is_err());
    let x = Frame { width: 1, height: 1, data: vec![1, 2, 3, 4, 5, 6] };
    assert!(png_bytes(&x).is_ok());
}

#[test]
fn bad_masks_are_refused() {
    let bad = |b: &[u8]| parse_pgm(&b.to_vec()).unwrap_err();
    assert_eq!(bad(b""), "truncated pgm header");
    assert_eq!(bad(b"P2 1 1 255\n0"), "not a binary PGM (P5)");
    assert_eq!(bad(b"P5"), "truncated pgm header");
    assert_eq!(bad(b"P5 x 1 255\n0"), "bad pgm width");
    assert_eq!(bad(b"P5 1 x 255\n0"), "bad pgm height");
    assert_eq!(bad(b"P5 1 1 x\n0"), "bad pgm maxval");
    assert_eq!(bad(b"P5 1 1 65535\n00"), "unsupported pgm maxval 65535");
    assert_eq!(bad(b"P5 2 2 255\n000"), "pgm data truncated");
}

#[test]
fn feathering_keeps_flat_masks() {
    let mut m = MaskFrame { width: 5, height: 4, data: vec![200; 20] };
    feather(&mut m, 2);
    assert_eq!(m.data, vec![200; 20]);
    let mut m = MaskFrame { width: 3, height: 1, data: vec![0, 255, 0] };
    feather(&mut m, 0);
    assert_eq!(m.data, vec![0, 255, 0]);
}

#[test]
fn sizes_are_read_off_a_report() {
    assert_eq!(parse_video_size("640x360\n"), Ok((640, 360)));
    assert_eq!(parse_video_size("").unwrap_err(), "no width");
    assert_eq!(parse_video_size("640").unwrap_err(), "no height");
    assert_eq!(parse_video_size("640xy").unwrap_err(), "no height");
    assert_eq!(size_text(640, 360), "640x360");
    assert_eq!((even_size(7), even_size(8)), (6, 8));
}

#[test]
fn the_downloaded_file_is_the_last_line() {
    assert_eq!(downloaded_file("a\n/tmp/x.mp4\n\n"), Ok("/tmp/x.mp4".to_string()));
    assert_eq!(downloaded_file("\n  \n").unwrap_err(), "yt-dlp reported no file");
    assert_eq!(fetched_name("u"), "yt: u");
}

#[test]
fn segmenters_are_found() {
    assert_eq!(split_words("  a  b c "), vec!["a", "b", "c"]);
    assert_eq!(segment_cmd(Some("py x.py"), false), Some(vec!["py".into(), "x.py".into()]));
    let script = vec!["python3".to_string(), "tools/segment.py".to_string()];
    assert_eq!(segment_cmd(None, true), Some(script));
    assert_eq!(segment_cmd(None, false), None);
}

#[test]
fn raw_video_is_cut_into_frames() {
    let mut feed = FrameFeed::new(2, 1, 2);
    assert_eq!(feed.room(), 8);
    assert!(feed.feed(&vec![1, 2, 3]));
    assert_eq!(feed.room(), 5);
    assert!(feed.feed(&vec![4, 5, 6, 7, 8]));
    assert!(!feed.feed(&vec![9, 9, 9, 9, 9, 9, 9, 9]));
    let v = feed.finish().unwrap();
    assert_eq!(v.frames.len(), 2);
    assert_eq!(v.frames[0].data, vec![1, 2, 3, 4, 5, 6, 7, 8]);
    assert_eq!(f(v.fps), 15.0);

    let mut feed = FrameFeed::new(2, 1, 5);
    assert!(feed.feed(&vec![1]));
    assert!(!feed.feed(&vec![]));
    assert_eq!(feed.finish().unwrap_err(), "no video frames decoded");
}

#[test]
fn raw_sound_is_read_in_order() {
    let mut bytes = Vec::new();
    for x in [0.5f32, -1.25] {
        bytes.extend_from_slice(&x.to_le_bytes());
    }
    bytes.push(7);
    let v = samples_from_le(&bytes).unwrap();
    assert_eq!(v.iter().map(|x| f(*x)).collect::<Vec<f32>>(), vec![0.5, -1.25]);
    assert_eq!(samples_from_le(&vec![1, 2, 3]).unwrap_err(), "no audio stream decoded");
}

#[test]
fn channels_are_mixed_down() {
    let c = calc();
    let raw: Vec<F32> = [1.0, 3.0, 5.0, 7.0, 9.0].iter().map(|x| s(*x)).collect();
    let back = |v: Vec<F32>| v.iter().map(|x| f(*x)).collect::<Vec<f32>>();
    assert_eq!(back(mixdown(&c, &raw, 2))[..2], [2.0, 6.0]);
    assert_eq!(back(mixdown(&c, &raw, 0)), vec![1.0, 3.0, 5.0, 7.0, 9.0]);
}

#[test]
fn videos_are_decoded_small_and_even() {
    let c = calc();
    assert_eq!(decode_size(&c, 1920, 1080), (480, 270));
    assert_eq!(decode_size(&c, 321, 201), (320, 200));
    assert_eq!(decode_size(&c, 1, 1), (2, 2));
    assert_eq!(decode_size(&c, 4000, 1), (480, 2));
}

#[test]
fn sources_are_made_of_what_a_file_holds() {
    let c = calc();
    let tone = AudioClip::sine(&c, s(220.0), s(1.0), 48000);
    let a = loaded_source(&c, "a".to_string(), Some(tone), None);
    assert!((f(a.base_hz) - 220.0).abs() < 4.0);
    assert!(a.audio.is_some() && a.video.is_none());
    let video = VideoClip::test_pattern(&c, 8, 8, s(10.0), s(0.5));
    let v = loaded_source(&c, "v".to_string(), None, Some(video.clone()));
    assert_eq!(f(v.base_hz), 0.0);
    let cut = segmented_source(&a, "cat", video.clone());
    assert_eq!(cut.name, "cat @ a");
    assert_eq!(f(cut.base_hz), f(a.base_hz));
    assert!(cut.audio.is_some() && cut.video.is_some());
    assert_eq!(silent_sound(&c, &video).left.len(), 22050);
    let empty = VideoClip { frames: vec![], fps: s(10.0) };
    assert_eq!(silent_sound(&c, &empty).left.len(), 4410);
    assert_eq!((feather_radius(&c, 640, 360), feather_radius(&c, 32, 24)), (3, 1));
}

#[test]
fn samples_become_whole_numbers() {
    let c = calc();
    assert_eq!(pcm_of(&c, s(1.0)), 32767);
    assert_eq!(pcm_of(&c, s(-2.0)), -32767);
    assert_eq!(pcm_of(&c, s(f32::NAN)), 0);
    assert_eq!(f(sample_of(&c, 16384, 16)), 0.5);
}

#[test]
fn files_must_hold_something() {
    assert_eq!(require_media("x", true, false), Ok(()));
    assert_eq!(require_media("x", false, false).unwrap_err(), "x: no decodable audio or video");
    assert!(is_wav("WAV") && !is_wav("mp3"));
    assert_eq!(encode_size(&vec![]).unwrap_err(), "nothing to encode");
    let mixed = vec![Frame::black(2, 2), Frame::black(4, 2)];
    assert_eq!(encode_size(&mixed).unwrap_err(), "inconsistent frame sizes");
    assert_eq!(encode_size(&vec![Frame::black(4, 2)]), Ok((4, 2)));
}

#[test]
fn finished_frames_have_the_asked_size() {
    let mut feed = FrameFeed::new(2, 3, 9);
    for _ in 0..2 {
        assert!(feed.feed(&vec![7; 24]));
    }
    assert!(feed.feed(&vec![7; 12]));
    let v = feed.finish().unwrap();
    assert_eq!(v.frames.len(), 2);
    for frame in &v.frames {
        assert_eq!((frame.width, frame.height, frame.data.len()), (2, 3, 24));
    }
}

#[test]
fn wav_files_are_written_byte_for_byte() {
    let c = calc();
    let buf = StereoBuffer {
        left: vec![s(0.0), s(1.0)],
        right: vec![s(-1.0), s(0.5)],
        sample_rate: 48000,
    };
    let bytes = wav_bytes(&c, &buf).unwrap();
    let mut want: Vec<u8> = Vec::new();
    want.extend_from_slice(b"RIFF");
    want.extend_from_slice(&44u32.to_le_bytes());
    want.extend_from_slice(b"WAVEfmt ");
    want.extend_from_slice(&16u32.to_le_bytes());
    want.extend_from_slice(&[1, 0, 2, 0]);
    want.extend_from_slice(&48000u32.to_le_bytes());
    want.extend_from_slice(&192000u32.to_le_bytes());
    want.extend_from_slice(&[4, 0, 16, 0]);
    want.extend_from_slice(b"data");
    want.extend_from_slice(&8u32.to_le_bytes());
    for x in [0i16, -32767, 32767, 16383] {
        want.extend_from_slice(&x.to_le_bytes());
    }
    assert_eq!(bytes, want);
    assert_eq!(bytes.len(), 44 + 4 * 2);

    let empty = StereoBuffer { left: vec![], right: vec![], sample_rate: 8000 };
    let bytes = wav_bytes(&c, &empty).unwrap();
    assert_eq!(bytes.len(), 44);
    assert_eq!(&bytes[4..8], &36u32.to_le_bytes());
    assert_eq!(&bytes[40..44], &[0, 0, 0, 0]);
}

#[test]
fn finished_frames_have_four_bytes_per_pixel() {
    let mut feed = FrameFeed::new(3, 2, 4);
    assert_eq!(feed.room(), 24);
    assert!(feed.feed(&(0..24).collect::<Vec<u8>>()));
    assert!(!feed.feed(&vec![]));
    let v = feed.finish().unwrap();
    assert!(v.frames.iter().all(|x| x.data.len() == 4 * 3 * 2 && x.width == 3 && x.height == 2));
}

#[test]
fn saved_sounds_read_back_closely() {
    let c = calc();
    let left: Vec<f32> = vec![0.0, 0.5, -0.25, 1.0, -1.0, 3.0, 0.123456, f32::NEG_INFINITY];
    let right: Vec<f32> = vec![0.0, 0.5, 0.75, 1.0, -1.0, -0.5, -0.654321, f32::INFINITY];
    let buf = StereoBuffer {
        left: left.iter().map(|x| s(*x)).collect(),
        right: right.iter().map(|x| s(*x)).collect(),
        sample_rate: 22050,
    };
    let clip = wav_from_bytes(&c, &wav_bytes(&c, &buf).unwrap()).unwrap();
    assert_eq!(clip.sample_rate, 22050);
    assert_eq!(clip.samples.len(), left.len());
    for i in 0..left.len() {
        let mean = (left[i].clamp(-1.0, 1.0) + right[i].clamp(-1.0, 1.0)) / 2.0;
        assert!((f(clip.samples[i]) - mean).abs() <= 3.0 / 32768.0);
    }
    assert_eq!(f(clip.samples[3]), 32767.0 / 32768.0);
}

#[test]
fn wav_files_of_other_sizes_are_read() {
    let c = calc();
    for (bits, v, want) in [(8u16, -128i32, -1.0f32), (24, 1 << 22, 0.5), (32, 1 << 29, 0.25)] {
        let spec = hound::WavSpec {
            channels: 1,
            sample_rate: 8000,
            bits_per_sample: bits,
            sample_format: hound::SampleFormat::Int,
        };
        let mut bytes = Cursor::new(Vec::new());
        let mut w = hound::WavWriter::new(&mut bytes, spec).unwrap();
        w.write_sample(v).unwrap();
        w.write_sample(0i32).unwrap();
        w.finalize().unwrap();
        let clip = wav_from_bytes(&c, &bytes.into_inner()).unwrap();
        assert_eq!(clip.samples.iter().map(|x| f(*x)).collect::<Vec<_>>(), vec![want, 0.0]);
        assert_eq!(clip.sample_rate, 8000);
    }
}

#[test]
fn bad_wav_files_are_refused() {
    let c = calc();
    let good = {
        let buf = StereoBuffer { left: vec![s(0.5)], right: vec![s(0.5)], sample_rate: 8000 };
        wav_bytes(&c, &buf).unwrap()
    };
    assert!(wav_from_bytes(&c, &good).is_ok());
    let tag = "Ill-formed WAVE file: no RIFF tag found";
    assert_eq!(wav_from_bytes(&c, &b"not a wav file at all".to_vec()).unwrap_err(), tag);
    assert_eq!(wav_from_bytes(&c, &vec![]).unwrap_err(), "Failed to read enough bytes.");
    assert!(wav_from_bytes(&c, &good[..46].to_vec()).is_err());
    let mut mute = good.clone();
    mute[22] = 0;
    let none = "Ill-formed WAVE file: file contains zero channels";
    assert_eq!(wav_from_bytes(&c, &mute).unwrap_err(), none);
    let spec = hound::WavSpec {
        channels: 1,
        sample_rate: 8000,
        bits_per_sample: 32,
        sample_format: hound::SampleFormat::Float,
    };
    let mut bytes = Cursor::new(Vec::new());
    let mut w = hound::WavWriter::new(&mut bytes, spec).unwrap();
    w.write_sample(0.5f32).unwrap();
    w.finalize().unwrap();
    assert!(wav_from_bytes(&c, &bytes.into_inner()).is_err());
}

#[test]
fn odd_sample_sizes_are_refused() {
    // An empty file whose header says that 65 or 64 bits of each sample count.
    let file = |valid: u16| {
        let mut b: Vec<u8> = b"RIFF\x3c\0\0\0WAVEfmt \x28\0\0\0".to_vec();
        b.extend_from_slice(&[0xfe, 0xff, 1, 0]);
        b.extend_from_slice(&8000u32.to_le_bytes());
        b.extend_from_slice(&16000u32.to_le_bytes());
        b.extend_from_slice(&[2, 0, 16, 0, 22, 0]);
        b.extend_from_slice(&valid.to_le_bytes());
        b.extend_from_slice(&[0, 0, 0, 0]);
        b.extend_from_slice(&[1, 0, 0, 0, 0, 0, 0x10, 0, 0x80, 0, 0, 0xaa, 0, 0x38, 0x9b, 0x71]);
        b.extend_from_slice(b"data\0\0\0\0");
        b
    };
    let c = calc();
    assert!(wav_from_bytes(&c, &file(64)).unwrap().samples.is_empty());
    assert_eq!(wav_from_bytes(&c, &file(65)).unwrap_err(), "bad number of bits per sample");
}

#[test]
fn feathering_keeps_order_and_range() {
    let mask = |f: &dyn Fn(u32) -> u8| MaskFrame { width: 9, height: 7, data: (0..63).map(f).collect() };
    for radius in [0, 1, 2, 5, 20] {
        let mut a = mask(&|i| 20 + (i * 37 % 180) as u8);
        let mut b = mask(&|i| 20 + (i * 37 % 180) as u8 + (i % 3) as u8);
        feather(&mut a, radius);
        feather(&mut b, radius);
        assert!(a.data.iter().zip(&b.data).all(|(x, y)| x <= y));
        assert!(a.data.iter().all(|x| (20..=199).contains(x)));
    }
}
