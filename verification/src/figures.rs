//! Numbers written out with a fixed count of decimals.
use crate::num::{double_value, single_value, F32, F64};
use crate::text::{decimal, digit};
use vstd::arithmetic::power2::{lemma_pow2_adds, lemma_pow2_pos, lemma_pow2_unfold, pow2};
use vstd::prelude::*;

verus! {

/// 10 to the power of `d`.
pub open spec fn pow10(d: nat) -> nat
    decreases d,
{
    if d == 0 {
        1
    } else {
        10 * pow10((d - 1) as nat)
    }
}

/// `n / unit` to the nearest whole number, halves to the even one.
pub open spec fn half_even(n: nat, unit: nat) -> nat {
    let q = n / unit;
    let r = n % unit;
    if 2 * r > unit || (2 * r == unit && q % 2 == 1) {
        q + 1
    } else {
        q
    }
}

/// The last `d` digits of a number.
pub open spec fn last_digits(n: nat, d: nat) -> Seq<char>
    decreases d,
{
    if d == 0 {
        seq![]
    } else {
        last_digits(n / 10, (d - 1) as nat).push(digit((n % 10) as int))
    }
}

/// A number of units of which 10^`d` make one, written with `d` decimals.
pub open spec fn with_decimals(n: nat, d: nat) -> Seq<char> {
    if d == 0 {
        decimal(n)
    } else {
        decimal(n / pow10(d)) + seq!['.'] + last_digits(n, d)
    }
}

/// What `v / unit` reads as with `d` decimals.
pub open spec fn figures(v: nat, unit: nat, d: nat) -> Seq<char> {
    with_decimals(half_even(v * pow10(d), unit), d)
}

/// A single with `d` decimals.
pub open spec fn fixed_single(x: F32, d: nat) -> Seq<char> {
    if x.nan() {
        seq!['N', 'a', 'N']
    } else {
        (if x.neg() {
            seq!['-']
        } else {
            seq![]
        }) + (if x.finite() {
            figures(single_value(x.mag()) as nat, pow2(149), d)
        } else {
            seq!['i', 'n', 'f']
        })
    }
}

/// A double with `d` decimals.
pub open spec fn fixed_double(x: F64, d: nat) -> Seq<char> {
    if x.nan() {
        seq!['N', 'a', 'N']
    } else {
        (if x.neg() {
            seq!['-']
        } else {
            seq![]
        }) + (if x.finite() {
            figures(double_value(x.mag()) as nat, pow2(1074), d)
        } else {
            seq!['i', 'n', 'f']
        })
    }
}

// ------------------------------------------------------------------ digits

/// What decimal digits denote, the lowest first.
spec fn amount(ds: Seq<u8>) -> nat
    decreases ds.len(),
{
    if ds.len() == 0 {
        0
    } else {
        ds[0] as nat + 10 * amount(ds.skip(1))
    }
}

spec fn all_digits(ds: Seq<u8>) -> bool {
    forall|i: int| 0 <= i < ds.len() ==> #[trigger] ds[i] < 10
}

/// Twice a number, and a carry, digit by digit.
spec fn twice(ds: Seq<u8>, carry: u8) -> Seq<u8>
    decreases ds.len(),
{
    if ds.len() == 0 {
        if carry == 0 {
            seq![]
        } else {
            seq![carry]
        }
    } else {
        seq![((2 * ds[0] + carry) % 10) as u8] + twice(
            ds.skip(1),
            ((2 * ds[0] + carry) / 10) as u8,
        )
    }
}

proof fn lemma_twice(ds: Seq<u8>, carry: u8)
    requires
        all_digits(ds),
        carry <= 1,
    ensures
        all_digits(twice(ds, carry)),
        amount(twice(ds, carry)) == 2 * amount(ds) + carry,
        twice(ds, carry).len() >= ds.len(),
        ds.len() > 0 && ds.last() != 0 ==> twice(ds, carry).last() != 0,
        ds.len() == 0 && carry != 0 ==> twice(ds, carry).last() != 0,
    decreases ds.len(),
{
    if ds.len() == 0 {
        if carry != 0 {
            reveal_with_fuel(amount, 2);
            assert(seq![carry].skip(1) =~= seq![]);
        }
    } else {
        let rest = ds.skip(1);
        let c = ((2 * ds[0] + carry) / 10) as u8;
        assert(ds[0] < 10);
        assert(all_digits(rest)) by {
            assert forall|i: int| 0 <= i < rest.len() implies #[trigger] rest[i] < 10 by {
                assert(rest[i] == ds[i + 1]);
            }
        }
        lemma_twice(rest, c);
        let t = twice(rest, c);
        let all = twice(ds, carry);
        assert(all.skip(1) =~= t);
        assert forall|i: int| 0 <= i < all.len() implies #[trigger] all[i] < 10 by {
            if i > 0 {
                assert(all[i] == t[i - 1]);
            }
        }
        if ds.last() != 0 {
            if rest.len() > 0 {
                assert(rest.last() == ds.last());
                assert(all.last() == t.last());
            } else if c != 0 {
                assert(t =~= seq![c]);
                assert(all.last() == c);
            } else {
                assert(t =~= seq![]);
                assert(all.last() == all[0]);
            }
        }
    }
}

fn doubled(ds: &Vec<u8>) -> (r: Vec<u8>)
    requires
        all_digits(ds@),
    ensures
        r@ == twice(ds@, 0),
{
    let mut out: Vec<u8> = Vec::new();
    let mut carry: u8 = 0;
    let mut i: usize = 0;
    assert(ds@.skip(0) =~= ds@);
    while i < ds.len()
        invariant
            i <= ds@.len(),
            carry <= 1,
            all_digits(ds@),
            out@ + twice(ds@.skip(i as int), carry) =~= twice(ds@, 0),
        decreases ds.len() - i,
    {
        assert(ds@[i as int] < 10);
        let x: u8 = 2 * ds[i] + carry;
        let ghost before = out@;
        let ghost rest = ds@.skip(i as int);
        assert(rest.skip(1) =~= ds@.skip(i + 1));
        assert(rest[0] == ds@[i as int]);
        out.push(x % 10);
        carry = x / 10;
        assert(out@ + twice(ds@.skip(i + 1), carry) =~= before + (seq![(x % 10) as u8] + twice(
            rest.skip(1),
            carry,
        )));
        i += 1;
    }
    assert(ds@.skip(i as int) =~= seq![]);
    if carry != 0 {
        out.push(carry);
    }
    out
}

/// The digits of a number, the lowest first.
fn digits_of(n: u64) -> (r: Vec<u8>)
    ensures
        r@.len() > 0,
        all_digits(r@),
        amount(r@) == n,
        n > 0 ==> r@.last() != 0,
        n == 0 ==> r@.len() == 1,
{
    let mut out: Vec<u8> = Vec::new();
    let mut rest: u64 = n;
    let mut more: bool = true;
    while more
        invariant
            all_digits(out@),
            lead(out@, rest as nat) == n,
            more ==> (out@.len() > 0 ==> rest > 0),
            !more ==> rest == 0 && out@.len() > 0,
            !more && n > 0 ==> out@.last() != 0,
            !more && n == 0 ==> out@.len() == 1,
            more && out@.len() > 0 ==> n > 0,
            more && out@.len() == 0 ==> rest == n,
        decreases rest, (if more { 1nat } else { 0nat }),
    {
        let ghost before = out@;
        let d: u8 = (rest % 10) as u8;
        out.push(d);
        proof {
            lemma_lead_push(before, rest as nat);
        }
        rest = rest / 10;
        more = rest > 0;
    }
    proof {
        lemma_lead_nothing(out@);
    }
    out
}

/// A number whose low digits are `ds` and whose rest is `rest`.
spec fn lead(ds: Seq<u8>, rest: nat) -> nat
    decreases ds.len(),
{
    if ds.len() == 0 {
        rest
    } else {
        ds[0] as nat + 10 * lead(ds.skip(1), rest)
    }
}

proof fn lemma_lead_push(ds: Seq<u8>, rest: nat)
    ensures
        lead(ds.push((rest % 10) as u8), rest / 10) == lead(ds, rest),
    decreases ds.len(),
{
    let more = ds.push((rest % 10) as u8);
    if ds.len() == 0 {
        reveal_with_fuel(lead, 2);
        assert(more.skip(1) =~= seq![]);
    } else {
        assert(more.skip(1) =~= ds.skip(1).push((rest % 10) as u8));
        lemma_lead_push(ds.skip(1), rest);
    }
}

proof fn lemma_lead_nothing(ds: Seq<u8>)
    ensures
        lead(ds, 0) == amount(ds),
    decreases ds.len(),
{
    if ds.len() > 0 {
        lemma_lead_nothing(ds.skip(1));
    }
}

proof fn lemma_amount_pos(ds: Seq<u8>)
    requires
        ds.len() > 0,
        ds.last() != 0,
    ensures
        amount(ds) > 0,
    decreases ds.len(),
{
    if ds.len() > 1 {
        assert(ds.skip(1).last() == ds.last());
        lemma_amount_pos(ds.skip(1));
    }
}

fn push_digits(out: &mut String, ds: &Vec<u8>, i: usize)
    requires
        i < ds@.len(),
        all_digits(ds@),
        ds@.last() != 0 || ds@.len() == 1,
    ensures
        final(out)@ == old(out)@ + decimal(amount(ds@.skip(i as int))),
    decreases ds@.len() - i,
{
    let ghost s = ds@.skip(i as int);
    let ghost start = out@;
    assert(s.skip(1) =~= ds@.skip(i + 1));
    assert(s[0] == ds@[i as int]);
    assert(ds@[i as int] < 10);
    if i < ds.len() - 1 {
        push_digits(out, ds, i + 1);
        proof {
            assert(ds@.skip(i + 1).last() == ds@.last());
            lemma_amount_pos(ds@.skip(i + 1));
        }
        let ghost n = amount(s);
        assert(n / 10 == amount(s.skip(1)));
        assert(n % 10 == s[0] as nat);
        out.push((48 + ds[i]) as char);
        assert(out@ =~= start + decimal(n));
    } else {
        assert(s.skip(1) =~= seq![]);
        out.push((48 + ds[i]) as char);
        assert(out@ =~= start + decimal(amount(s)));
    }
}

// ---------------------------------------------------------------- rounding

proof fn lemma_pow10_pos(d: nat)
    ensures
        pow10(d) > 0,
    decreases d,
{
    if d > 0 {
        lemma_pow10_pos((d - 1) as nat);
    }
}

proof fn lemma_scaled_rounding(n: nat, unit: nat, t: nat)
    requires
        unit > 0,
        t > 0,
    ensures
        half_even(n * t, unit * t) == half_even(n, unit),
{
    let q = n / unit;
    let r = n % unit;
    vstd::arithmetic::div_mod::lemma_fundamental_div_mod(n as int, unit as int);
    assert(n * t == q * (unit * t) + r * t) by (nonlinear_arith)
        requires
            n == unit * q + r,
    ;
    assert(0 <= r * t < unit * t) by (nonlinear_arith)
        requires
            0 <= r < unit,
            t > 0,
    ;
    vstd::arithmetic::div_mod::lemma_fundamental_div_mod_converse(
        (n * t) as int,
        (unit * t) as int,
        q as int,
        (r * t) as int,
    );
    assert((2 * (r * t) > unit * t) == (2 * r > unit)) by (nonlinear_arith)
        requires
            t > 0,
    ;
    assert((2 * (r * t) == unit * t) == (2 * r == unit)) by (nonlinear_arith)
        requires
            t > 0,
    ;
}

proof fn lemma_whole_rounding(n: nat, unit: nat)
    requires
        unit > 0,
    ensures
        half_even(n * unit, unit) == n,
{
    vstd::arithmetic::div_mod::lemma_fundamental_div_mod_converse(
        (n * unit) as int,
        unit as int,
        n as int,
        0,
    );
}

proof fn lemma_small_rounding(n: nat, unit: nat)
    requires
        2 * n < unit,
    ensures
        half_even(n, unit) == 0,
{
    vstd::arithmetic::div_mod::lemma_fundamental_div_mod_converse(n as int, unit as int, 0, n as int);
}

fn rounded(n: u64, s: u32) -> (r: u64)
    requires
        n < 0x8000_0000_0000_0000,
        0 < s,
    ensures
        r == half_even(n as nat, pow2(s as nat)),
{
    proof {
        lemma_pow2_pos(s as nat);
    }
    if s >= 64 {
        proof {
            vstd::arithmetic::power2::lemma2_to64();
            vstd::arithmetic::power2::lemma2_to64_rest();
            if s > 64 {
                vstd::arithmetic::power2::lemma_pow2_strictly_increases(64, s as nat);
            }
            lemma_small_rounding(n as nat, pow2(s as nat));
        }
        return 0;
    }
    proof {
        vstd::arithmetic::power2::lemma2_to64_rest();
        vstd::arithmetic::power2::lemma_pow2_strictly_increases(s as nat, 64);
        vstd::bits::lemma_u64_shl_is_mul(1, s as u64);
        if s > 1 {
            vstd::arithmetic::power2::lemma_pow2_strictly_increases(1, s as nat);
        }
        vstd::arithmetic::power2::lemma2_to64();
    }
    let unit: u64 = 1u64 << s;
    let q: u64 = n / unit;
    let r: u64 = n % unit;
    proof {
        vstd::arithmetic::div_mod::lemma_div_is_ordered_by_denominator(n as int, 2, unit as int);
    }
    if r > unit - r || (r == unit - r && q % 2 == 1) {
        q + 1
    } else {
        q
    }
}

proof fn lemma_decimals_of_whole(n: nat, d: nat)
    ensures
        (n * pow10(d)) / pow10(d) == n,
        last_digits(n * pow10(d), d) == Seq::new(d, |i: int| '0'),
    decreases d,
{
    lemma_pow10_pos(d);
    vstd::arithmetic::div_mod::lemma_fundamental_div_mod_converse(
        (n * pow10(d)) as int,
        pow10(d) as int,
        n as int,
        0,
    );
    if d > 0 {
        let p = pow10((d - 1) as nat);
        assert(n * pow10(d) == (n * p) * 10) by (nonlinear_arith)
            requires
                pow10(d) == 10 * p,
        ;
        lemma_decimals_of_whole(n, (d - 1) as nat);
        assert(last_digits(n * pow10(d), d) =~= Seq::new(d, |i: int| '0'));
    } else {
        assert(last_digits(n, 0) =~= Seq::new(0, |i: int| '0'));
    }
}

fn push_last(out: &mut String, n: u64, d: u32)
    ensures
        final(out)@ == old(out)@ + last_digits(n as nat, d as nat),
    decreases d,
{
    let ghost start = out@;
    if d > 0 {
        push_last(out, n / 10, d - 1);
        out.push((48 + (n % 10) as u8) as char);
    }
    assert(out@ =~= start + last_digits(n as nat, d as nat));
}

fn push_zeros(out: &mut String, d: u32)
    ensures
        final(out)@ == old(out)@ + Seq::new(d as nat, |i: int| '0'),
{
    let ghost start = out@;
    let mut i: u32 = 0;
    while i < d
        invariant
            i <= d,
            out@ =~= start + Seq::new(i as nat, |i: int| '0'),
        decreases d - i,
    {
        out.push('0');
        i += 1;
    }
}

fn ten_to(d: u32) -> (r: u64)
    requires
        d <= 3,
    ensures
        r == pow10(d as nat),
        r <= 1000,
{
    proof {
        reveal_with_fuel(pow10, 4);
    }
    match d {
        0 => 1,
        1 => 10,
        2 => 100,
        _ => 1000,
    }
}

/// Writes `m * 2^up`, a whole number.
fn push_whole(out: &mut String, m: u64, up: u32, d: u32)
    requires
        m > 0,
    ensures
        final(out)@ == old(out)@ + with_decimals(m as nat * pow2(up as nat) * pow10(d as nat), d as nat),
{
    let ghost start = out@;
    let mut ds: Vec<u8> = digits_of(m);
    let mut i: u32 = 0;
    proof {
        vstd::arithmetic::power2::lemma2_to64();
    }
    while i < up
        invariant
            i <= up,
            ds@.len() > 0,
            all_digits(ds@),
            ds@.last() != 0,
            amount(ds@) == m as nat * pow2(i as nat),
        decreases up - i,
    {
        proof {
            lemma_twice(ds@, 0);
            lemma_pow2_unfold((i + 1) as nat);
            assert(2 * (m as nat * pow2(i as nat)) == m as nat * (2 * pow2(i as nat)))
                by (nonlinear_arith);
        }
        ds = doubled(&ds);
        i += 1;
    }
    let ghost n = m as nat * pow2(up as nat);
    push_digits(out, &ds, 0);
    assert(ds@.skip(0) =~= ds@);
    proof {
        lemma_decimals_of_whole(n, d as nat);
    }
    if d > 0 {
        out.push('.');
        push_zeros(out, d);
    } else {
        assert(n * pow10(0) == n) by (nonlinear_arith)
            requires
                pow10(0) == 1,
        ;
    }
    assert(out@ =~= start + with_decimals(n * pow10(d as nat), d as nat));
}

/// Writes `m / 2^down`.
fn push_part(out: &mut String, m: u64, down: u32, d: u32)
    requires
        m < 0x20_0000_0000_0000,
        0 < down,
        d <= 3,
    ensures
        final(out)@ == old(out)@ + figures(m as nat, pow2(down as nat), d as nat),
{
    let ghost start = out@;
    let p: u64 = ten_to(d);
    assert(m * p <= 0x20_0000_0000_0000 * 1000) by (nonlinear_arith)
        requires
            m < 0x20_0000_0000_0000,
            p <= 1000,
    ;
    let n: u64 = rounded(m * p, down);
    proof {
        lemma_pow10_pos(d as nat);
    }
    if d == 0 {
        crate::text::push_decimal(out, n);
    } else {
        crate::text::push_decimal(out, n / p);
        out.push('.');
        push_last(out, n, d);
    }
    assert(out@ =~= start + with_decimals(n as nat, d as nat));
}

/// Writes `m * 2^e / 2^unit`.
fn push_figures(out: &mut String, m: u64, e: u32, unit: u32, d: u32)
    requires
        m < 0x20_0000_0000_0000,
        unit <= 1074,
        e <= 4096,
        d <= 3,
    ensures
        final(out)@ == old(out)@ + figures(m as nat * pow2(e as nat), pow2(unit as nat), d as nat),
{
    let ghost v = m as nat * pow2(e as nat);
    let ghost p = pow10(d as nat);
    proof {
        lemma_pow10_pos(d as nat);
        lemma_pow2_pos(e as nat);
        lemma_pow2_pos(unit as nat);
    }
    if e < unit {
        let s: u32 = unit - e;
        proof {
            lemma_pow2_adds(e as nat, s as nat);
            lemma_pow2_pos(s as nat);
            lemma_scaled_rounding(m as nat * p, pow2(s as nat), pow2(e as nat));
            assert(v * p == (m as nat * p) * pow2(e as nat)) by (nonlinear_arith)
                requires
                    v == m as nat * pow2(e as nat),
            ;
            assert(pow2(unit as nat) == pow2(s as nat) * pow2(e as nat)) by (nonlinear_arith)
                requires
                    pow2(unit as nat) == pow2(e as nat) * pow2(s as nat),
            ;
        }
        push_part(out, m, s, d);
    } else {
        let k: u32 = e - unit;
        proof {
            lemma_pow2_adds(unit as nat, k as nat);
            let w = m as nat * pow2(k as nat);
            lemma_whole_rounding(w * p, pow2(unit as nat));
            assert(v * p == (w * p) * pow2(unit as nat)) by (nonlinear_arith)
                requires
                    v == m as nat * pow2(e as nat),
                    w == m as nat * pow2(k as nat),
                    pow2(e as nat) == pow2(unit as nat) * pow2(k as nat),
            ;
        }
        if m == 0 {
            let ghost start = out@;
            out.push('0');
            proof {
                assert(0 * pow2(k as nat) * p == 0) by (nonlinear_arith);
                lemma_decimals_of_whole(0, d as nat);
                assert(0 * p == 0);
            }
            if d > 0 {
                out.push('.');
                push_zeros(out, d);
            }
            assert(out@ =~= start + with_decimals(0, d as nat));
        } else {
            push_whole(out, m, k, d);
        }
    }
}

/// Writes a single with up to three decimals.
pub fn push_single(out: &mut String, x: F32, d: u32)
    requires
        d <= 3,
    ensures
        final(out)@ == old(out)@ + fixed_single(x, d as nat),
{
    let ghost start = out@;
    let mag: u32 = x.bits % 0x8000_0000;
    if mag > 0x7f80_0000 {
        out.push('N');
        out.push('a');
        out.push('N');
        assert(out@ =~= start + fixed_single(x, d as nat));
        return;
    }
    if x.bits >= 0x8000_0000 {
        out.push('-');
    }
    let ghost signed = out@;
    if mag == 0x7f80_0000 {
        out.push('i');
        out.push('n');
        out.push('f');
    } else if mag < 0x80_0000 {
        proof {
            vstd::arithmetic::power2::lemma2_to64();
        }
        push_figures(out, mag as u64, 0, 149, d);
    } else {
        push_figures(out, (0x80_0000 + mag % 0x80_0000) as u64, mag / 0x80_0000 - 1, 149, d);
    }
    assert(out@ =~= start + fixed_single(x, d as nat));
}

/// Writes a double with up to three decimals.
pub fn push_double(out: &mut String, x: F64, d: u32)
    requires
        d <= 3,
    ensures
        final(out)@ == old(out)@ + fixed_double(x, d as nat),
{
    let ghost start = out@;
    let mag: u64 = x.bits % 0x8000_0000_0000_0000;
    if mag > 0x7ff0_0000_0000_0000 {
        out.push('N');
        out.push('a');
        out.push('N');
        assert(out@ =~= start + fixed_double(x, d as nat));
        return;
    }
    if x.bits >= 0x8000_0000_0000_0000 {
        out.push('-');
    }
    let ghost signed = out@;
    if mag == 0x7ff0_0000_0000_0000 {
        out.push('i');
        out.push('n');
        out.push('f');
    } else if mag < 0x10_0000_0000_0000 {
        proof {
            vstd::arithmetic::power2::lemma2_to64();
        }
        push_figures(out, mag, 0, 1074, d);
    } else {
        push_figures(
            out,
            0x10_0000_0000_0000 + mag % 0x10_0000_0000_0000,
            (mag / 0x10_0000_0000_0000) as u32 - 1,
            1074,
            d,
        );
    }
    assert(out@ =~= start + fixed_double(x, d as nat));
}

} // verus!
