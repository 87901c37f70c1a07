#![allow(dead_code)]
use chromagrain::calc::{Calc, Op, Width};
use chromagrain::num::{F32, F64};
use chromagrain::figures::{push_double, push_single};
use chromagrain::text::{join3, key, push_decimal, push_signed, text_of, to_lowered};

fn calc() -> Calc<impl Fn(Op, Width, u64, u64) -> u64> {
    let native = |o: Op, w: Width, a: u64, b: u64| -> u64 { match w {
        Width::Single => {
            let x = f32::from_bits(a as u32);
            let y = f32::from_bits(b as u32);
            let r = match o {
                Op::Add => x + y,
                Op::Sub => x - y,
                Op::Mul => x * y,
                Op::Div => x / y,
                Op::Rem => x % y,
                Op::RemEuclid => x.rem_euclid(y),
                Op::Sqrt => x.sqrt(),
                Op::Sin => x.sin(),
                Op::Cos => x.cos(),
                Op::Tanh => x.tanh(),
                Op::Pow => x.powf(y),
                Op::Log2 => x.log2(),
                Op::Exp => x.exp(),
                Op::Floor => x.floor(),
                Op::Ceil => x.ceil(),
                Op::Round => x.round(),
                Op::Fract => x.fract(),
                Op::FromInt => a as i64 as f32,
                Op::FromUint => a as f32,
                Op::ToInt => return x as i64 as u64,
                Op::ToUint => return x as u64,
                Op::Convert => return (x as f64).to_bits(),
            };
            r.to_bits() as u64
        }
        Width::Double => {
            let x = f64::from_bits(a);
            let y = f64::from_bits(b);
            let r = match o {
                Op::Add => x + y,
                Op::Sub => x - y,
                Op::Mul => x * y,
                Op::Div => x / y,
                Op::Rem => x % y,
                Op::RemEuclid => x.rem_euclid(y),
                Op::Sqrt => x.sqrt(),
                Op::Sin => x.sin(),
                Op::Cos => x.cos(),
                Op::Tanh => x.tanh(),
                Op::Pow => x.powf(y),
                Op::Log2 => x.log2(),
                Op::Exp => x.exp(),
                Op::Floor => x.floor(),
                Op::Ceil => x.ceil(),
                Op::Round => x.round(),
                Op::Fract => x.fract(),
                Op::FromInt => a as i64 as f64,
                Op::FromUint => a as f64,
                Op::ToInt => return x as i64 as u64,
                Op::ToUint => return x as u64,
                Op::Convert => return (x as f32).to_bits() as u64,
            };
            r.to_bits()
        }
    } };
    Calc { run: native }
}

fn s(x: f32) -> F32 {
    F32 { bits: x.to_bits() }
}

fn d(x: f64) -> F64 {
    F64 { bits: x.to_bits() }
}

fn f(x: F32) -> f32 {
    f32::from_bits(x.bits)
}

fn g(x: F64) -> f64 {
    f64::from_bits(x.bits)
}

fn single(x: f32, places: u32) -> String {
    let mut out = String::new();
    push_single(&mut out, s(x), places);
    out
}

fn double(x: f64, places: u32) -> String {
    let mut out = String::from("=");
    push_double(&mut out, d(x), places);
    out
}

#[test]
fn singles_read_as_they_print() {
    for x in [
        0.0f32, -0.0, 0.5, 1.5, 2.5, -2.5, 0.25, 0.35, 1.005, 110.0, 440.5, 99.995, 1e-30, 3.4e38,
        123456.79, -7.0625, 16777216.0, 0.0005, 0.00051, 1e10, f32::MIN_POSITIVE, 1e-45,
        f32::NAN, f32::INFINITY, f32::NEG_INFINITY,
    ] {
        assert_eq!(single(x, 0), format!("{x:.0}"), "{x:e}");
        assert_eq!(single(x, 1), format!("{x:.1}"), "{x:e}");
        assert_eq!(single(x, 2), format!("{x:.2}"), "{x:e}");
        assert_eq!(single(x, 3), format!("{x:.3}"), "{x:e}");
    }
}

#[test]
fn doubles_read_as_they_print() {
    for x in [
        0.0f64, -0.0, 0.5, 1.5, 0.125, 0.375, 2.675, 1e300, f64::MAX, 5e-324, -1e22, 123456789.987,
        9007199254740993.0, 0.0625, f64::NAN, f64::NEG_INFINITY,
    ] {
        assert_eq!(double(x, 0), format!("={x:.0}"), "{x:e}");
        assert_eq!(double(x, 1), format!("={x:.1}"), "{x:e}");
        assert_eq!(double(x, 3), format!("={x:.3}"), "{x:e}");
    }
}

#[test]
fn many_values_read_as_they_print() {
    let mut bits: u32 = 1;
    for _ in 0..2000 {
        bits = bits.wrapping_mul(1664525).wrapping_add(1013904223);
        let x = f32::from_bits(bits);
        assert_eq!(single(x, 2), format!("{x:.2}"), "{x:e}");
    }
}

#[test]
fn whole_numbers_are_written_out() {
    let mut out = String::new();
    push_decimal(&mut out, 18446744073709551615);
    out.push(' ');
    push_signed(&mut out, i64::MIN);
    out.push(' ');
    push_signed(&mut out, -1);
    push_decimal(&mut out, 0);
    assert_eq!(out, "18446744073709551615 -9223372036854775808 -10");
}

#[test]
fn names_are_brought_to_one_form() {
    assert_eq!(text_of(&key("Duration Jitter")), text_of(&key("duration_jitter")));
    assert_eq!(text_of(&to_lowered("WaV")), "wav");
    assert_eq!(join3("a", "", "b"), "ab");
}
