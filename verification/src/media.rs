//! Media interchange: mask images, alpha baking, and what the external tools
//! (ffmpeg, ffprobe, yt-dlp, the segmenter) are told and report.
use crate::audio::{AudioClip, StereoBuffer};
use crate::calc::{Calc, Op, Width};
use crate::dsp::{detect_pitch, pitch};
use crate::num::{double, single, F32, F64};
use crate::text;
use crate::timeline::Source;
use crate::video::{lemma_index, lemma_place, Frame, Image, Rgba, VideoClip};
use std::sync::Arc;
use vstd::prelude::*;

verus! {

/// A grayscale mask frame from the segmenter (255 = object).
#[derive(Debug)]
pub struct MaskFrame {
    pub width: u32,
    pub height: u32,
    pub data: Vec<u8>,
}

impl MaskFrame {
    /// One byte for each pixel.
    pub open spec fn wf(self) -> bool {
        self.data@.len() == self.width * self.height
    }
}

// ------------------------------------------------------------- mask images

/// ASCII white space.
pub open spec fn blank(b: u8) -> bool {
    b == 32 || b == 9 || b == 10 || b == 12 || b == 13
}

fn is_blank(b: u8) -> (r: bool)
    ensures
        r == blank(b),
{
    b == 32 || b == 9 || b == 10 || b == 12 || b == 13
}

/// The end of the line that `pos` is on.
pub open spec fn line_end(b: Seq<u8>, pos: int) -> int
    decreases b.len() - pos,
{
    if 0 <= pos < b.len() && b[pos] != 10 {
        line_end(b, pos + 1)
    } else {
        pos
    }
}

proof fn lemma_line_end(b: Seq<u8>, pos: int)
    requires
        0 <= pos <= b.len(),
    ensures
        pos <= line_end(b, pos) <= b.len(),
        pos < b.len() && b[pos] != 10 ==> pos < line_end(b, pos),
    decreases b.len() - pos,
{
    if pos < b.len() && b[pos] != 10 {
        lemma_line_end(b, pos + 1);
    }
}

/// Where the next token starts: after white space and comments (`#` to the end of a line).
pub open spec fn token_start(b: Seq<u8>, pos: int) -> int
    decreases b.len() - pos,
{
    if 0 <= pos < b.len() {
        if b[pos] == 35 {
            let e = line_end(b, pos);
            if pos < e <= b.len() {
                token_start(b, e)
            } else {
                pos
            }
        } else if blank(b[pos]) {
            token_start(b, pos + 1)
        } else {
            pos
        }
    } else {
        pos
    }
}

/// Where a token that starts at `pos` ends: at white space.
pub open spec fn token_end(b: Seq<u8>, pos: int) -> int
    decreases b.len() - pos,
{
    if 0 <= pos < b.len() && !blank(b[pos]) {
        token_end(b, pos + 1)
    } else {
        pos
    }
}

/// The next token at or after `pos`, and where it ends; `None` when nothing is left.
pub open spec fn token_at(b: Seq<u8>, pos: int) -> Option<(Seq<u8>, int)> {
    let s = token_start(b, pos);
    let e = token_end(b, s);
    if s == e {
        None
    } else {
        Some((b.subrange(s, e), e))
    }
}

/// The number that decimal digits write.
pub open spec fn digits_value(b: Seq<u8>) -> Option<int>
    decreases b.len(),
{
    if b.len() == 0 {
        Some(0)
    } else {
        match digits_value(b.drop_last()) {
            Some(n) => if 48 <= b.last() <= 57 {
                Some(n * 10 + (b.last() - 48))
            } else {
                None
            },
            None => None,
        }
    }
}

/// A 32-bit number as text: decimal digits, after a plus sign if there is one.
pub open spec fn number(b: Seq<u8>) -> Option<int> {
    let d = if b.len() > 0 && b[0] == 43 {
        b.skip(1)
    } else {
        b
    };
    if d.len() == 0 {
        None
    } else {
        match digits_value(d) {
            Some(n) => if n <= u32::MAX {
                Some(n)
            } else {
                None
            },
            None => None,
        }
    }
}

proof fn lemma_digits_stay(b: Seq<u8>, i: int)
    requires
        0 <= i <= b.len(),
    ensures
        digits_value(b.take(i)) is None ==> digits_value(b) is None,
        digits_value(b) is Some ==> digits_value(b.take(i)) is Some && 0 <= digits_value(b.take(i))->0
            <= digits_value(b)->0,
    decreases b.len(),
{
    if i == b.len() {
        assert(b.take(i) =~= b);
        if b.len() > 0 {
            lemma_digits_stay(b.drop_last(), b.len() - 1);
            assert(b.drop_last().take(b.len() - 1) =~= b.drop_last());
        }
    } else {
        lemma_digits_stay(b.drop_last(), i);
        assert(b.drop_last().take(i) =~= b.take(i));
    }
}

fn parse_number(b: &Vec<u8>, from: usize, to: usize) -> (r: Option<u32>)
    requires
        from <= to <= b@.len(),
    ensures
        r is Some <==> number(b@.subrange(from as int, to as int)) is Some,
        r is Some ==> r->0 == number(b@.subrange(from as int, to as int))->0,
{
    let ghost tok = b@.subrange(from as int, to as int);
    let mut i: usize = from;
    if i < to && b[i] == 43 {
        i += 1;
    }
    let start: usize = i;
    let ghost d = b@.subrange(start as int, to as int);
    proof {
        if start > from {
            assert(tok.skip(1) =~= d);
        } else {
            assert(tok =~= d);
        }
    }
    if start == to {
        return None;
    }
    let mut n: u64 = 0;
    while i < to
        invariant
            from <= start <= i <= to <= b@.len(),
            start < to,
            d == b@.subrange(start as int, to as int),
            tok == b@.subrange(from as int, to as int),
            number(tok) == (match digits_value(d) {
                Some(v) => if v <= u32::MAX {
                    Some(v)
                } else {
                    None
                },
                None => None,
            }),
            digits_value(d.take(i - start)) == Some(n as int),
            n <= u32::MAX,
        decreases to - i,
    {
        let c: u8 = b[i];
        proof {
            assert(d.take(i - start + 1).drop_last() =~= d.take(i - start));
            assert(d[i - start] == c);
            lemma_digits_stay(d, i - start + 1);
        }
        if c < 48 || c > 57 {
            return None;
        }
        n = n * 10 + (c - 48) as u64;
        if n > u32::MAX as u64 {
            return None;
        }
        i += 1;
    }
    assert(d.take(i - start) =~= d);
    Some(n as u32)
}

/// What reading a mask gives: width, height and bytes, or the error's text.
pub open spec fn pgm(b: Seq<u8>) -> Result<(int, int, Seq<u8>), Seq<char>> {
    match token_at(b, 0) {
        None => Err("truncated pgm header"@),
        Some((magic, p0)) => if magic != seq![80u8, 53u8] {
            Err("not a binary PGM (P5)"@)
        } else {
            match token_at(b, p0) {
                None => Err("truncated pgm header"@),
                Some((wt, p1)) => match number(wt) {
                    None => Err("bad pgm width"@),
                    Some(w) => match token_at(b, p1) {
                        None => Err("truncated pgm header"@),
                        Some((ht, p2)) => match number(ht) {
                            None => Err("bad pgm height"@),
                            Some(h) => match token_at(b, p2) {
                                None => Err("truncated pgm header"@),
                                Some((mt, p3)) => match number(mt) {
                                    None => Err("bad pgm maxval"@),
                                    Some(max) => pgm_body(b, p3 + 1, w, h, max),
                                },
                            },
                        },
                    },
                },
            }
        },
    }
}

/// The same, once the header is read and the data starts at `pos`.
pub open spec fn pgm_body(b: Seq<u8>, pos: int, w: int, h: int, max: int) -> Result<
    (int, int, Seq<u8>),
    Seq<char>,
> {
    if max == 0 || max > 255 {
        Err("unsupported pgm maxval "@ + text::decimal(max as nat))
    } else if b.len() < pos + w * h {
        Err("pgm data truncated"@)
    } else {
        Ok((w, h, b.subrange(pos, pos + w * h).map_values(|v: u8| rescaled(v, max))))
    }
}

/// A sample of `0..=max` on the scale `0..=255`, kept to its low eight bits.
pub open spec fn rescaled(v: u8, max: int) -> u8 {
    if max == 255 {
        v
    } else {
        ((v * 255 / max) % 256) as u8
    }
}

/// Whether a result is what the specification says.
pub open spec fn pgm_result(
    r: Result<MaskFrame, String>,
    s: Result<(int, int, Seq<u8>), Seq<char>>,
) -> bool {
    match (r, s) {
        (Ok(m), Ok((w, h, d))) => m.width == w && m.height == h && m.data@ == d && m.wf(),
        (Err(e), Err(t)) => e@ == t,
        _ => false,
    }
}

fn next_token(b: &Vec<u8>, pos: usize) -> (r: Option<(usize, usize)>)
    requires
        pos <= b@.len(),
    ensures
        match token_at(b@, pos as int) {
            None => r is None,
            Some((t, e)) => r matches Some((s, q)) && s <= q <= b@.len() && q == e && t == b@.subrange(
                s as int,
                q as int,
            ),
        },
{
    let n: usize = b.len();
    let mut p: usize = pos;
    while p < n && (b[p] == 35 || is_blank(b[p]))
        invariant
            pos <= p <= n,
            n == b@.len(),
            token_start(b@, pos as int) == token_start(b@, p as int),
        decreases n - p,
    {
        if b[p] == 35 {
            let ghost hash = p as int;
            proof {
                lemma_line_end(b@, hash);
            }
            while p < n && b[p] != 10
                invariant
                    hash <= p <= n,
                    n == b@.len(),
                    line_end(b@, hash) == line_end(b@, p as int),
                decreases n - p,
            {
                p += 1;
            }
            assert(p == line_end(b@, hash));
        } else {
            p += 1;
        }
    }
    let start: usize = p;
    assert(token_start(b@, pos as int) == start);
    while p < n && !is_blank(b[p])
        invariant
            start <= p <= n,
            n == b@.len(),
            token_end(b@, start as int) == token_end(b@, p as int),
        decreases n - p,
    {
        p += 1;
    }
    if start == p {
        None
    } else {
        Some((start, p))
    }
}

/// Minimal binary PGM (P5) reader: "P5" width height maxval, one white space
/// character, then the data; comments are legal between tokens.
pub fn parse_pgm(bytes: &Vec<u8>) -> (r: Result<MaskFrame, String>)
    ensures
        pgm_result(r, pgm(bytes@)),
{
    let (m0, p0): (usize, usize) = match next_token(bytes, 0) {
        None => {
            return Err("truncated pgm header".to_owned());
        },
        Some(t) => t,
    };
    let magic: bool = p0 - m0 == 2 && bytes[m0] == 80 && bytes[m0 + 1] == 53;
    assert(magic <==> bytes@.subrange(m0 as int, p0 as int) =~= seq![80u8, 53u8]) by {
        let t = bytes@.subrange(m0 as int, p0 as int);
        if t =~= seq![80u8, 53u8] {
            assert(t.len() == 2 && t[0] == 80 && t[1] == 53);
        }
    }
    if !magic {
        return Err("not a binary PGM (P5)".to_owned());
    }
    let (w0, p1): (usize, usize) = match next_token(bytes, p0) {
        None => {
            return Err("truncated pgm header".to_owned());
        },
        Some(t) => t,
    };
    let w: u32 = match parse_number(bytes, w0, p1) {
        None => {
            return Err("bad pgm width".to_owned());
        },
        Some(n) => n,
    };
    let (h0, p2): (usize, usize) = match next_token(bytes, p1) {
        None => {
            return Err("truncated pgm header".to_owned());
        },
        Some(t) => t,
    };
    let h: u32 = match parse_number(bytes, h0, p2) {
        None => {
            return Err("bad pgm height".to_owned());
        },
        Some(n) => n,
    };
    let (x0, p3): (usize, usize) = match next_token(bytes, p2) {
        None => {
            return Err("truncated pgm header".to_owned());
        },
        Some(t) => t,
    };
    let max: u32 = match parse_number(bytes, x0, p3) {
        None => {
            return Err("bad pgm maxval".to_owned());
        },
        Some(n) => n,
    };
    if max == 0 || max > 255 {
        let mut e: String = "unsupported pgm maxval ".to_owned();
        text::push_decimal(&mut e, max as u64);
        return Err(e);
    }
    assert(0 <= w * h <= 0xffff_ffff * 0xffff_ffff) by (nonlinear_arith)
        requires
            w <= 0xffff_ffff,
            h <= 0xffff_ffff,
    ;
    let n: u64 = w as u64 * h as u64;
    let left: u64 = if p3 < bytes.len() { (bytes.len() - p3 - 1) as u64 } else { 0 };
    if p3 >= bytes.len() || left < n {
        return Err("pgm data truncated".to_owned());
    }
    let from: usize = p3 + 1;
    let to: usize = from + n as usize;
    let mut data: Vec<u8> = Vec::new();
    let mut i: usize = from;
    while i < to
        invariant
            from <= i <= to <= bytes@.len(),
            0 < max <= 255,
            data@ =~= bytes@.subrange(from as int, i as int).map_values(
                |v: u8| rescaled(v, max as int),
            ),
        decreases to - i,
    {
        let v: u8 = bytes[i];
        let x: u32 = v as u32 * 255 / max;
        assert(x as u8 == (x % 256) as u8) by (bit_vector);
        data.push(if max == 255 { v } else { x as u8 });
        i += 1;
    }
    Ok(MaskFrame { width: w, height: h, data })
}

// --------------------------------------------------------------- feathering

/// `v` kept within `0..n`.
pub open spec fn held(v: int, n: int) -> int {
    if v < 0 {
        0
    } else if v >= n {
        n - 1
    } else {
        v
    }
}

/// The sum of row `y` around column `x`, over offsets `-r..d`; columns beyond
/// an edge count as the edge.
pub open spec fn row_sum(data: Seq<u8>, w: int, x: int, y: int, r: int, d: int) -> int
    decreases d + r,
{
    if d <= -r {
        0
    } else {
        row_sum(data, w, x, y, r, d - 1) + data[y * w + held(x + d - 1, w)]
    }
}

/// The sum of column `x` around row `y`, over offsets `-r..d`.
pub open spec fn col_sum(data: Seq<u8>, w: int, h: int, x: int, y: int, r: int, d: int) -> int
    decreases d + r,
{
    if d <= -r {
        0
    } else {
        col_sum(data, w, h, x, y, r, d - 1) + data[held(y + d - 1, h) * w + x]
    }
}

/// The mask averaged along rows over `2r + 1` columns.
pub open spec fn rows_blurred(data: Seq<u8>, w: int, h: int, r: int) -> Seq<u8> {
    Seq::new(
        (w * h) as nat,
        |j: int| (row_sum(data, w, j % w, j / w, r, r + 1) / (2 * r + 1)) as u8,
    )
}

/// The mask averaged along columns over `2r + 1` rows.
pub open spec fn cols_blurred(data: Seq<u8>, w: int, h: int, r: int) -> Seq<u8> {
    Seq::new(
        (w * h) as nat,
        |j: int| (col_sum(data, w, h, j % w, j / w, r, r + 1) / (2 * r + 1)) as u8,
    )
}

/// The mask after feathering by `r`.
pub open spec fn feathered(data: Seq<u8>, w: int, h: int, r: int) -> Seq<u8> {
    if r == 0 {
        data
    } else {
        cols_blurred(rows_blurred(data, w, h, r), w, h, r)
    }
}

fn row_average(data: &Vec<u8>, w: u32, h: u32, x: u32, y: u32, r: u32) -> (v: u8)
    requires
        data@.len() == w * h,
        w * h <= i32::MAX,
        x < w,
        y < h,
        (2 * r + 1) * 255 <= u32::MAX,
    ensures
        v == row_sum(data@, w as int, x as int, y as int, r as int, r + 1) / (2 * r + 1),
{
    let mut sum: u32 = 0;
    let mut d: i64 = -(r as i64);
    let n: u32 = 2 * r + 1;
    while d <= r as i64
        invariant
            -(r as int) <= d <= r + 1,
            n == 2 * r + 1,
            (2 * r + 1) * 255 <= u32::MAX,
            data@.len() == w * h,
            w * h <= i32::MAX,
            x < w,
            y < h,
            sum == row_sum(data@, w as int, x as int, y as int, r as int, d as int),
            sum <= 255 * (d + r),
        decreases r + 1 - d,
    {
        let at: i64 = x as i64 + d;
        let sx: u32 = if at < 0 {
            0
        } else if at >= w as i64 {
            w - 1
        } else {
            at as u32
        };
        proof {
            lemma_index(w as int, h as int, sx as int, y as int);
        }
        let i: usize = (y * w + sx) as usize;
        sum = sum + data[i] as u32;
        d += 1;
    }
    assert(sum / n <= 255) by (nonlinear_arith)
        requires
            sum <= 255 * n,
            n > 0,
    ;
    (sum / n) as u8
}

fn col_average(data: &Vec<u8>, w: u32, h: u32, x: u32, y: u32, r: u32) -> (v: u8)
    requires
        data@.len() == w * h,
        w * h <= i32::MAX,
        x < w,
        y < h,
        (2 * r + 1) * 255 <= u32::MAX,
    ensures
        v == col_sum(data@, w as int, h as int, x as int, y as int, r as int, r + 1) / (2 * r + 1),
{
    let mut sum: u32 = 0;
    let mut d: i64 = -(r as i64);
    let n: u32 = 2 * r + 1;
    while d <= r as i64
        invariant
            -(r as int) <= d <= r + 1,
            n == 2 * r + 1,
            (2 * r + 1) * 255 <= u32::MAX,
            data@.len() == w * h,
            w * h <= i32::MAX,
            x < w,
            y < h,
            sum == col_sum(data@, w as int, h as int, x as int, y as int, r as int, d as int),
            sum <= 255 * (d + r),
        decreases r + 1 - d,
    {
        let at: i64 = y as i64 + d;
        let sy: u32 = if at < 0 {
            0
        } else if at >= h as i64 {
            h - 1
        } else {
            at as u32
        };
        proof {
            lemma_index(w as int, h as int, x as int, sy as int);
        }
        let i: usize = (sy * w + x) as usize;
        sum = sum + data[i] as u32;
        d += 1;
    }
    assert(sum / n <= 255) by (nonlinear_arith)
        requires
            sum <= 255 * n,
            n > 0,
    ;
    (sum / n) as u8
}

/// Separable box blur on a mask — cheap edge feathering.
pub fn feather(mask: &mut MaskFrame, radius: u32)
    requires
        old(mask).wf(),
        old(mask).width * old(mask).height <= i32::MAX,
        (2 * radius + 1) * 255 <= u32::MAX,
    ensures
        final(mask).wf(),
        final(mask).width == old(mask).width,
        final(mask).height == old(mask).height,
        final(mask).data@ == feathered(
            old(mask).data@,
            old(mask).width as int,
            old(mask).height as int,
            radius as int,
        ),
{
    if radius == 0 {
        return;
    }
    let w: u32 = mask.width;
    let h: u32 = mask.height;
    let n: usize = mask.data.len();
    let ghost before = mask.data@;
    let mut tmp: Vec<u8> = Vec::new();
    let mut i: usize = 0;
    while i < n
        invariant
            i <= n,
            n == w * h,
            w == mask.width,
            h == mask.height,
            mask.data@ == before,
            before.len() == w * h,
            w * h <= i32::MAX,
            (2 * radius + 1) * 255 <= u32::MAX,
            tmp@ =~= rows_blurred(before, w as int, h as int, radius as int).take(i as int),
        decreases n - i,
    {
        proof {
            lemma_place(w as int, h as int, i as int);
        }
        let x: u32 = (i % w as usize) as u32;
        let y: u32 = (i / w as usize) as u32;
        let v: u8 = row_average(&mask.data, w, h, x, y, radius);
        tmp.push(v);
        i += 1;
    }
    assert(tmp@ =~= rows_blurred(before, w as int, h as int, radius as int));
    let mut out: Vec<u8> = Vec::new();
    let mut j: usize = 0;
    while j < n
        invariant
            j <= n,
            n == w * h,
            tmp@.len() == w * h,
            w * h <= i32::MAX,
            (2 * radius + 1) * 255 <= u32::MAX,
            out@ =~= cols_blurred(tmp@, w as int, h as int, radius as int).take(j as int),
        decreases n - j,
    {
        proof {
            lemma_place(w as int, h as int, j as int);
        }
        let x: u32 = (j % w as usize) as u32;
        let y: u32 = (j / w as usize) as u32;
        let v: u8 = col_average(&tmp, w, h, x, y, radius);
        out.push(v);
        j += 1;
    }
    assert(out@ =~= cols_blurred(tmp@, w as int, h as int, radius as int));
    mask.data = out;
}

proof fn lemma_flat_row(data: Seq<u8>, w: int, h: int, x: int, y: int, r: int, d: int, v: u8)
    requires
        data.len() == w * h,
        forall|j: int| 0 <= j < data.len() ==> data[j] == v,
        0 <= x < w,
        0 <= y < h,
        -r <= d,
    ensures
        row_sum(data, w, x, y, r, d) == v * (d + r),
    decreases d + r,
{
    if d > -r {
        lemma_flat_row(data, w, h, x, y, r, d - 1, v);
        lemma_index(w, h, held(x + d - 1, w), y);
        assert(v * (d - 1 + r) + v == v * (d + r)) by (nonlinear_arith);
    } else {
        assert(v * (d + r) == 0) by (nonlinear_arith)
            requires
                d + r == 0,
        ;
    }
}

proof fn lemma_flat_col(data: Seq<u8>, w: int, h: int, x: int, y: int, r: int, d: int, v: u8)
    requires
        data.len() == w * h,
        forall|j: int| 0 <= j < data.len() ==> data[j] == v,
        0 <= x < w,
        0 <= y < h,
        -r <= d,
    ensures
        col_sum(data, w, h, x, y, r, d) == v * (d + r),
    decreases d + r,
{
    if d > -r {
        lemma_flat_col(data, w, h, x, y, r, d - 1, v);
        lemma_index(w, h, x, held(y + d - 1, h));
        assert(v * (d - 1 + r) + v == v * (d + r)) by (nonlinear_arith);
    } else {
        assert(v * (d + r) == 0) by (nonlinear_arith)
            requires
                d + r == 0,
        ;
    }
}

/// Feathering a mask of one value leaves it as it is: only edges soften.
pub proof fn law_flat_masks_stay(data: Seq<u8>, w: int, h: int, r: int, v: u8)
    requires
        0 <= w,
        0 <= h,
        0 <= r,
        data.len() == w * h,
        forall|j: int| 0 <= j < data.len() ==> data[j] == v,
    ensures
        feathered(data, w, h, r) == data,
{
    if r > 0 {
        let rows = rows_blurred(data, w, h, r);
        assert(v * (2 * r + 1) / (2 * r + 1) == v) by (nonlinear_arith)
            requires
                r > 0,
        ;
        assert forall|j: int| 0 <= j < rows.len() implies rows[j] == v by {
            lemma_place(w, h, j);
            lemma_flat_row(data, w, h, j % w, j / w, r, r + 1, v);
        }
        assert(rows =~= data);
        let cols = cols_blurred(rows, w, h, r);
        assert forall|j: int| 0 <= j < cols.len() implies cols[j] == v by {
            lemma_place(w, h, j);
            lemma_flat_col(rows, w, h, j % w, j / w, r, r + 1, v);
        }
        assert(cols =~= data);
    }
}

/// Whether a mask is nowhere above another.
pub open spec fn nowhere_above(a: Seq<u8>, b: Seq<u8>) -> bool {
    a.len() == b.len() && forall|j: int| 0 <= j < a.len() ==> #[trigger] a[j] <= b[j]
}

proof fn lemma_sums_ordered(a: Seq<u8>, b: Seq<u8>, w: int, h: int, x: int, y: int, r: int, d: int)
    requires
        a.len() == w * h,
        nowhere_above(a, b),
        0 <= x < w,
        0 <= y < h,
        -r <= d,
    ensures
        0 <= row_sum(a, w, x, y, r, d) <= row_sum(b, w, x, y, r, d) <= 255 * (d + r),
        0 <= col_sum(a, w, h, x, y, r, d) <= col_sum(b, w, h, x, y, r, d) <= 255 * (d + r),
    decreases d + r,
{
    if d > -r {
        lemma_sums_ordered(a, b, w, h, x, y, r, d - 1);
        lemma_index(w, h, held(x + d - 1, w), y);
        lemma_index(w, h, x, held(y + d - 1, h));
        assert(a[y * w + held(x + d - 1, w)] <= b[y * w + held(x + d - 1, w)]);
        assert(a[held(y + d - 1, h) * w + x] <= b[held(y + d - 1, h) * w + x]);
    }
}

proof fn lemma_averages_ordered(a: int, b: int, n: int)
    by (nonlinear_arith)
    requires
        0 <= a <= b <= 255 * n,
        n > 0,
    ensures
        0 <= a / n <= b / n <= 255,
{
}

/// Feathering keeps the order of masks: of two, the one that is nowhere above the other is
/// nowhere above it afterwards.
pub proof fn law_feathering_keeps_order(a: Seq<u8>, b: Seq<u8>, w: int, h: int, r: int)
    requires
        0 <= w,
        0 <= h,
        0 <= r,
        a.len() == w * h,
        nowhere_above(a, b),
    ensures
        nowhere_above(feathered(a, w, h, r), feathered(b, w, h, r)),
{
    if r > 0 {
        let (p, q) = (rows_blurred(a, w, h, r), rows_blurred(b, w, h, r));
        assert forall|j: int| 0 <= j < p.len() implies #[trigger] p[j] <= q[j] by {
            lemma_place(w, h, j);
            lemma_sums_ordered(a, b, w, h, j % w, j / w, r, r + 1);
            lemma_averages_ordered(
                row_sum(a, w, j % w, j / w, r, r + 1),
                row_sum(b, w, j % w, j / w, r, r + 1),
                2 * r + 1,
            );
        }
        let (s, t) = (cols_blurred(p, w, h, r), cols_blurred(q, w, h, r));
        assert forall|j: int| 0 <= j < s.len() implies #[trigger] s[j] <= t[j] by {
            lemma_place(w, h, j);
            lemma_sums_ordered(p, q, w, h, j % w, j / w, r, r + 1);
            lemma_averages_ordered(
                col_sum(p, w, h, j % w, j / w, r, r + 1),
                col_sum(q, w, h, j % w, j / w, r, r + 1),
                2 * r + 1,
            );
        }
    }
}

/// Feathering stays between the least and the greatest value of a mask.
pub proof fn law_feathering_stays_between(data: Seq<u8>, w: int, h: int, r: int, lo: u8, hi: u8)
    requires
        0 <= w,
        0 <= h,
        0 <= r,
        data.len() == w * h,
        forall|j: int| 0 <= j < data.len() ==> lo <= #[trigger] data[j] <= hi,
    ensures
        feathered(data, w, h, r).len() == data.len(),
        forall|j: int| 0 <= j < data.len() ==> lo <= #[trigger] feathered(data, w, h, r)[j] <= hi,
{
    let (low, high) = (Seq::new(data.len(), |j: int| lo), Seq::new(data.len(), |j: int| hi));
    law_flat_masks_stay(low, w, h, r, lo);
    law_flat_masks_stay(high, w, h, r, hi);
    law_feathering_keeps_order(low, data, w, h, r);
    law_feathering_keeps_order(data, high, w, h, r);
    assert forall|j: int| 0 <= j < data.len() implies lo <= #[trigger] feathered(data, w, h, r)[j] <= hi by {
        assert(low[j] <= feathered(data, w, h, r)[j]);
    }
}

// --------------------------------------------------------------- masks

/// Which of `m` masks belongs to frame `i` of `n`.
pub open spec fn mask_index(i: int, n: int, m: int) -> int {
    let k = i * m / n;
    if k < m - 1 {
        k
    } else {
        m - 1
    }
}

/// Which of `m` mask rows (or columns) belongs to row (or column) `v` of `n`.
pub open spec fn mask_place(v: int, n: int, m: int) -> int {
    let k = v * m / n;
    if k < m - 1 {
        k
    } else {
        m - 1
    }
}

/// The value that a mask of `mw` by `mh` has for pixel `j` of an image of `w` by `h`.
pub open spec fn mask_value(mask: Seq<u8>, mw: int, mh: int, w: int, h: int, j: int) -> u8 {
    mask[mask_place(j / w, h, mh) * mw + mask_place(j % w, w, mw)]
}

/// An image with its alpha from a mask of `mw` by `mh` and its colours as before.
pub open spec fn masked(image: Image, mask: Seq<u8>, mw: int, mh: int) -> Image {
    Image {
        px: Seq::new(
            image.px.len(),
            |j: int|
                Rgba {
                    a: mask_value(mask, mw, mh, image.width, image.height, j),
                    ..image.px[j]
                },
        ),
        ..image
    }
}

fn scaled_place(v: u32, n: u32, m: u32) -> (r: u32)
    requires
        v < n,
        m > 0,
    ensures
        r == mask_place(v as int, n as int, m as int),
        r < m,
{
    assert(0 <= v * m <= 0xffff_ffff * 0xffff_ffff) by (nonlinear_arith)
        requires
            v <= 0xffff_ffff,
            m <= 0xffff_ffff,
    ;
    let k: u64 = v as u64 * m as u64 / n as u64;
    if k < (m - 1) as u64 {
        k as u32
    } else {
        m - 1
    }
}

fn mask_frame(f: &Frame, m: &MaskFrame) -> (r: Frame)
    requires
        f.wf(),
        m.wf(),
        m.width > 0,
        m.height > 0,
    ensures
        r.wf(),
        r.width == f.width,
        r.height == f.height,
        r@ == masked(f@, m.data@, m.width as int, m.height as int),
{
    let mut out: Frame = f.clone();
    let n: usize = f.area();
    let w: u32 = f.width;
    let h: u32 = f.height;
    let ghost want = masked(f@, m.data@, m.width as int, m.height as int);
    let mut i: usize = 0;
    while i < n
        invariant
            i <= n,
            n == f@.px.len(),
            n == w * h,
            f.wf(),
            out.wf(),
            w == f.width,
            h == f.height,
            out.width == w,
            out.height == h,
            m.wf(),
            m.width > 0,
            m.height > 0,
            want == masked(f@, m.data@, m.width as int, m.height as int),
            forall|j: int| 0 <= j < i ==> out@.px[j] == want.px[j],
            forall|j: int| i <= j < n ==> out@.px[j] == f@.px[j],
        decreases n - i,
    {
        proof {
            lemma_place(w as int, h as int, i as int);
        }
        let x: u32 = (i % w as usize) as u32;
        let y: u32 = (i / w as usize) as u32;
        let mx: u32 = scaled_place(x, w, m.width);
        let my: u32 = scaled_place(y, h, m.height);
        proof {
            lemma_index(m.width as int, m.height as int, mx as int, my as int);
            assert(m.data.len() == m.width * m.height);
            assert(0 <= my * m.width) by (nonlinear_arith);
        }
        let at: usize = my as usize * m.width as usize + mx as usize;
        let px: Rgba = out.load(i);
        out.store(i, Rgba { r: px.r, g: px.g, b: px.b, a: m.data[at] });
        i += 1;
    }
    assert(out@.px =~= want.px);
    out
}

/// Bake mask frames into a video's alpha channel. Masks are index-mapped onto
/// frames when counts differ and nearest-sampled when dimensions differ.
pub fn apply_masks(video: &VideoClip, masks: &Vec<MaskFrame>) -> (r: VideoClip)
    requires
        forall|i: int| 0 <= i < video.frames@.len() ==> (#[trigger] video.frames@[i]).wf(),
        forall|i: int|
            0 <= i < masks@.len() ==> (#[trigger] masks@[i]).wf() && masks@[i].width > 0
                && masks@[i].height > 0,
    ensures
        r.fps == video.fps,
        r.frames@.len() == video.frames@.len(),
        forall|i: int|
            0 <= i < video.frames@.len() ==> (#[trigger] r.frames@[i]).wf() && r.frames@[i].width
                == video.frames@[i].width && r.frames@[i].height == video.frames@[i].height
                && r.frames@[i]@ == if masks@.len() == 0 {
                video.frames@[i]@
            } else {
                let m = masks@[mask_index(i, video.frames@.len() as int, masks@.len() as int)];
                masked(video.frames@[i]@, m.data@, m.width as int, m.height as int)
            },
{
    if masks.len() == 0 {
        return video.clone();
    }
    let n: usize = video.frames.len();
    let k: usize = masks.len();
    let mut frames: Vec<Frame> = Vec::new();
    let mut i: usize = 0;
    while i < n
        invariant
            i <= n,
            n == video.frames@.len(),
            k == masks@.len(),
            k > 0,
            frames@.len() == i,
            forall|j: int| 0 <= j < n ==> (#[trigger] video.frames@[j]).wf(),
            forall|j: int|
                0 <= j < k ==> (#[trigger] masks@[j]).wf() && masks@[j].width > 0 && masks@[j].height
                    > 0,
            forall|j: int|
                0 <= j < i ==> (#[trigger] frames@[j]).wf() && frames@[j].width
                    == video.frames@[j].width && frames@[j].height == video.frames@[j].height
                    && frames@[j]@ == ({
                    let m = masks@[mask_index(j, n as int, k as int)];
                    masked(video.frames@[j]@, m.data@, m.width as int, m.height as int)
                }),
        decreases n - i,
    {
        assert(0 <= i * k <= 0xffff_ffff_ffff_ffff * 0xffff_ffff_ffff_ffff) by (nonlinear_arith)
            requires
                i <= 0xffff_ffff_ffff_ffff,
                k <= 0xffff_ffff_ffff_ffff,
        ;
        let at: u128 = i as u128 * k as u128 / n as u128;
        let mi: usize = if at < (k - 1) as u128 { at as usize } else { k - 1 };
        let f: Frame = mask_frame(&video.frames[i], &masks[mi]);
        frames.push(f);
        i += 1;
    }
    VideoClip { frames, fps: video.fps }
}

/// Feather every mask by `radius`, then bake them into the video's alpha.
pub fn bake_masks(video: &VideoClip, masks: Vec<MaskFrame>, radius: u32) -> (r: VideoClip)
    requires
        forall|i: int| 0 <= i < video.frames@.len() ==> (#[trigger] video.frames@[i]).wf(),
        forall|i: int|
            0 <= i < masks@.len() ==> (#[trigger] masks@[i]).wf() && masks@[i].width > 0
                && masks@[i].height > 0 && masks@[i].width * masks@[i].height <= i32::MAX,
        (2 * radius + 1) * 255 <= u32::MAX,
    ensures
        r.fps == video.fps,
        r.frames@.len() == video.frames@.len(),
        forall|i: int|
            0 <= i < video.frames@.len() ==> (#[trigger] r.frames@[i]).wf() && r.frames@[i]@
                == if masks@.len() == 0 {
                video.frames@[i]@
            } else {
                let m = masks@[mask_index(i, video.frames@.len() as int, masks@.len() as int)];
                masked(
                    video.frames@[i]@,
                    feathered(m.data@, m.width as int, m.height as int, radius as int),
                    m.width as int,
                    m.height as int,
                )
            },
{
    let ghost given = masks@;
    let mut soft: Vec<MaskFrame> = Vec::new();
    for m in it: masks
        invariant
            it.seq() == given,
            soft@.len() == it.index(),
            (2 * radius + 1) * 255 <= u32::MAX,
            forall|i: int|
                0 <= i < given.len() ==> (#[trigger] given[i]).wf() && given[i].width > 0
                    && given[i].height > 0 && given[i].width * given[i].height <= i32::MAX,
            forall|k: int|
                0 <= k < soft@.len() ==> (#[trigger] soft@[k]).wf() && soft@[k].width
                    == given[k].width && soft@[k].height == given[k].height && soft@[k].data@
                    == feathered(
                    given[k].data@,
                    given[k].width as int,
                    given[k].height as int,
                    radius as int,
                ),
    {
        let mut f: MaskFrame = m;
        feather(&mut f, radius);
        soft.push(f);
    }
    let r: VideoClip = apply_masks(video, &soft);
    assert forall|i: int| 0 <= i < video.frames@.len() && given.len() > 0 implies 0 <= #[trigger] mask_index(
        i,
        video.frames@.len() as int,
        given.len() as int,
    ) < given.len() by {
        let k = given.len() as int;
        assert(0 <= i * k / video.frames@.len() as int) by (nonlinear_arith)
            requires
                0 <= i,
                k > 0,
                video.frames@.len() > 0,
        ;
    }
    r
}

// ------------------------------------------------------------- tool reports

/// A character as a byte; beyond ASCII, a byte that is no digit.
pub open spec fn byte_of(c: char) -> u8 {
    if (c as u32) < 128 {
        c as u8
    } else {
        255
    }
}

/// The number that a text writes.
pub open spec fn text_number(t: Seq<char>) -> Option<int> {
    number(t.map_values(|c: char| byte_of(c)))
}

fn parse_text_number(t: &Vec<char>) -> (r: Option<u32>)
    ensures
        r is Some <==> text_number(t@) is Some,
        r is Some ==> r->0 == text_number(t@)->0,
{
    let mut b: Vec<u8> = Vec::new();
    let mut i: usize = 0;
    while i < t.len()
        invariant
            i <= t.len(),
            b@ =~= t@.map_values(|c: char| byte_of(c)).take(i as int),
        decreases t.len() - i,
    {
        let c: char = t[i];
        b.push(if (c as u32) < 128 { c as u8 } else { 255 });
        i += 1;
    }
    let n: usize = b.len();
    assert(b@.subrange(0, n as int) =~= t@.map_values(|c: char| byte_of(c)));
    parse_number(&b, 0, n)
}

/// How far `t` runs without the character `sep`, from `pos` on.
pub open spec fn run_end(t: Seq<char>, sep: char, pos: int) -> int
    decreases t.len() - pos,
{
    if 0 <= pos < t.len() && t[pos] != sep {
        run_end(t, sep, pos + 1)
    } else {
        pos
    }
}

fn find_run_end(t: &Vec<char>, sep: char, pos: usize) -> (r: usize)
    requires
        pos <= t@.len(),
    ensures
        r == run_end(t@, sep, pos as int),
        pos <= r <= t@.len(),
{
    let mut p: usize = pos;
    while p < t.len() && t[p] != sep
        invariant
            pos <= p <= t@.len(),
            run_end(t@, sep, pos as int) == run_end(t@, sep, p as int),
        decreases t.len() - p,
    {
        p += 1;
    }
    p
}

fn slice(t: &Vec<char>, from: usize, to: usize) -> (r: Vec<char>)
    requires
        from <= to <= t@.len(),
    ensures
        r@ == t@.subrange(from as int, to as int),
{
    let mut out: Vec<char> = Vec::new();
    let mut i: usize = from;
    while i < to
        invariant
            from <= i <= to <= t@.len(),
            out@ =~= t@.subrange(from as int, i as int),
        decreases to - i,
    {
        out.push(t[i]);
        i += 1;
    }
    out
}

/// The first line of a report, without white space around it.
pub open spec fn first_line(s: Seq<char>) -> Seq<char> {
    let t = text::trimmed(s);
    text::trimmed(t.subrange(0, run_end(t, '\n', 0)))
}

/// The size that a line "WIDTHxHEIGHT" reports, or the error's text.
pub open spec fn size_in(line: Seq<char>) -> Result<(int, int), Seq<char>> {
    let e = run_end(line, 'x', 0);
    match text_number(line.subrange(0, e)) {
        None => Err("no width"@),
        Some(w) => if e == line.len() {
            Err("no height"@)
        } else {
            match text_number(line.subrange(e + 1, run_end(line, 'x', e + 1))) {
                None => Err("no height"@),
                Some(h) => Ok((w, h)),
            }
        },
    }
}

/// The frame size in what ffprobe prints.
pub fn parse_video_size(report: &str) -> (r: Result<(u32, u32), String>)
    ensures
        match size_in(first_line(report@)) {
            Ok((w, h)) => r matches Ok((a, b)) && a == w && b == h,
            Err(e) => r is Err && r->Err_0@ == e,
        },
{
    let all: Vec<char> = text::chars_of(report);
    let t: Vec<char> = text::trim(&all);
    let end: usize = find_run_end(&t, '\n', 0);
    let first: Vec<char> = slice(&t, 0, end);
    let line: Vec<char> = text::trim(&first);
    let e: usize = find_run_end(&line, 'x', 0);
    let wt: Vec<char> = slice(&line, 0, e);
    match parse_text_number(&wt) {
        None => Err("no width".to_owned()),
        Some(w) => {
            if e == line.len() {
                return Err("no height".to_owned());
            }
            let f: usize = find_run_end(&line, 'x', e + 1);
            let ht: Vec<char> = slice(&line, e + 1, f);
            match parse_text_number(&ht) {
                None => Err("no height".to_owned()),
                Some(h) => Ok((w, h)),
            }
        },
    }
}

/// The last line of a report that is not blank, without white space around it.
pub open spec fn last_line(s: Seq<char>) -> Option<Seq<char>>
    decreases s.len(),
{
    let k = line_start(s, s.len() as int);
    let t = text::trimmed(s.skip(k));
    if t.len() > 0 {
        Some(t)
    } else if 0 < k <= s.len() {
        last_line(s.take(k - 1))
    } else {
        None
    }
}

/// Where the line that ends at `pos` starts.
pub open spec fn line_start(s: Seq<char>, pos: int) -> int
    decreases pos,
{
    if 0 < pos <= s.len() && s[pos - 1] != '\n' {
        line_start(s, pos - 1)
    } else {
        pos
    }
}

/// The file that yt-dlp reports, by its last line.
pub fn downloaded_file(report: &str) -> (r: Result<String, String>)
    ensures
        match last_line(report@) {
            Some(t) => r is Ok && r->Ok_0@ == t,
            None => r is Err && r->Err_0@ == "yt-dlp reported no file"@,
        },
{
    let all: Vec<char> = text::chars_of(report);
    let mut end: usize = all.len();
    assert(all@.take(end as int) =~= report@);
    loop
        invariant
            end <= all@.len(),
            all@ == report@,
            last_line(report@) == last_line(all@.take(end as int)),
        decreases end,
    {
        let ghost cur = all@.take(end as int);
        let mut k: usize = end;
        while k > 0 && all[k - 1] != '\n'
            invariant
                k <= end <= all@.len(),
                cur == all@.take(end as int),
                line_start(cur, end as int) == line_start(cur, k as int),
            decreases k,
        {
            k -= 1;
        }
        let line: Vec<char> = slice(&all, k, end);
        assert(line@ =~= cur.skip(k as int));
        let t: Vec<char> = text::trim(&line);
        if t.len() > 0 {
            return Ok(text::text_of(&t));
        }
        if k == 0 {
            return Err("yt-dlp reported no file".to_owned());
        }
        assert(cur.take(k - 1) =~= all@.take(k - 1));
        end = k - 1;
    }
}

/// The words of a text, parted by white space.
pub open spec fn words(s: Seq<char>) -> Seq<Seq<char>>
    decreases s.len(),
{
    let t = text::trimmed_start(s);
    let e = word_end(t, 0);
    if t.len() == 0 || t.len() > s.len() || e <= 0 || e > t.len() {
        seq![]
    } else {
        seq![t.take(e)] + words(t.skip(e))
    }
}

/// Where a word that starts at `pos` ends.
pub open spec fn word_end(s: Seq<char>, pos: int) -> int
    decreases s.len() - pos,
{
    if 0 <= pos < s.len() && !text::white(s[pos]) {
        word_end(s, pos + 1)
    } else {
        pos
    }
}

proof fn lemma_word_end(s: Seq<char>, pos: int)
    requires
        0 <= pos <= s.len(),
    ensures
        pos <= word_end(s, pos) <= s.len(),
    decreases s.len() - pos,
{
    if pos < s.len() && !text::white(s[pos]) {
        lemma_word_end(s, pos + 1);
    }
}

proof fn lemma_trimmed_start(s: Seq<char>)
    ensures
        text::trimmed_start(s).len() <= s.len(),
        text::trimmed_start(s).len() > 0 ==> !text::white(text::trimmed_start(s)[0]),
    decreases s.len(),
{
    if s.len() > 0 && text::white(s[0]) {
        lemma_trimmed_start(s.drop_first());
    }
}

/// Whether the texts are these words.
pub open spec fn spelled(v: Seq<String>, w: Seq<Seq<char>>) -> bool {
    &&& v.len() == w.len()
    &&& forall|i: int| 0 <= i < v.len() ==> (#[trigger] v[i])@ == w[i]
}

/// The words of a text.
pub fn split_words(s: &str) -> (r: Vec<String>)
    ensures
        spelled(r@, words(s@)),
{
    let all: Vec<char> = text::chars_of(s);
    let mut out: Vec<String> = Vec::new();
    let mut p: usize = 0;
    assert(all@.skip(0) =~= s@);
    let ghost mut done: Seq<Seq<char>> = seq![];
    assert(done + words(s@) =~= words(s@));
    loop
        invariant
            p <= all@.len(),
            all@ == s@,
            spelled(out@, done),
            words(s@) == done + words(all@.skip(p as int)),
        decreases all.len() - p,
    {
        let ghost rest = all@.skip(p as int);
        while p < all.len() && text::is_white(all[p])
            invariant
                p <= all@.len(),
                text::trimmed_start(rest) == text::trimmed_start(all@.skip(p as int)),
            decreases all.len() - p,
        {
            assert(all@.skip(p as int).drop_first() =~= all@.skip(p + 1));
            p += 1;
        }
        let ghost t = all@.skip(p as int);
        proof {
            assert(text::trimmed_start(rest) == t);
            lemma_trimmed_start(rest);
            lemma_word_end(t, 0);
        }
        if p == all.len() {
            assert(words(rest) =~= seq![]);
            assert(done + words(rest) =~= done);
            return out;
        }
        let from: usize = p;
        p += 1;
        while p < all.len() && !text::is_white(all[p])
            invariant
                from < p <= all@.len(),
                t == all@.skip(from as int),
                word_end(t, 0) == word_end(t, p - from),
            decreases all.len() - p,
        {
            p += 1;
        }
        let ghost e = word_end(t, 0);
        assert(e == p - from);
        let word: Vec<char> = slice(&all, from, p);
        let text: String = text::text_of(&word);
        out.push(text);
        proof {
            assert(word@ =~= t.take(e));
            assert(t.skip(e) =~= all@.skip(p as int));
            assert(words(rest) == seq![t.take(e)] + words(t.skip(e)));
            let more = done.push(t.take(e));
            assert(done + (seq![t.take(e)] + words(t.skip(e))) =~= more + words(t.skip(e)));
            done = more;
        }
    }
}

/// The segmenter's command line: the words of `configured` where there are any,
/// else the bundled script when it exists.
pub fn segment_cmd(configured: Option<&str>, script_exists: bool) -> (r: Option<Vec<String>>)
    ensures
        ({
            let set = match configured {
                Some(c) => words(c@),
                None => seq![],
            };
            if set.len() > 0 {
                r is Some && spelled(r->0@, set)
            } else if script_exists {
                r is Some && spelled(r->0@, seq!["python3"@, "tools/segment.py"@])
            } else {
                r is None
            }
        }),
{
    if let Some(c) = configured {
        let parts: Vec<String> = split_words(c);
        if parts.len() > 0 {
            return Some(parts);
        }
    }
    if script_exists {
        let mut v: Vec<String> = Vec::new();
        v.push("python3".to_owned());
        v.push("tools/segment.py".to_owned());
        return Some(v);
    }
    None
}

// ---------------------------------------------------------- decoded streams

/// Max decoded video width, seconds and rate, so a scraped video can't eat all memory.
pub const MAX_DECODE_WIDTH: u32 = 480;

pub const MAX_DECODE_SECONDS: usize = 90;

pub const DECODE_FPS: usize = 15;

/// The same rate as a number: 15.
pub const DECODE_FPS_BITS: u32 = 0x4170_0000;

/// `v` as an even dimension, at least 2: what every encoder accepts.
pub open spec fn even(v: u32) -> u32 {
    if v < 2 {
        2
    } else {
        (v - v % 2) as u32
    }
}

/// The even dimension next below, or 2.
pub fn even_size(v: u32) -> (r: u32)
    ensures
        r == even(v),
{
    if v < 2 {
        2
    } else {
        v - v % 2
    }
}

/// How much a video of a width is scaled down.
#[verifier::allow_in_spec]
pub fn decode_scale<K: Fn(Op, Width, u64, u64) -> u64>(c: &Calc<K>, width: u32) -> F32
    requires
        c.sound(),
    returns
        (F32::of_count(c, MAX_DECODE_WIDTH as u64).div(c, F32::of_count(c, width as u64)).min(single(0x3f80_0000))),
{
    F32::of_count(c, MAX_DECODE_WIDTH as u64).div(c, F32::of_count(c, width as u64)).min(single(0x3f80_0000))
}

/// A dimension that is scaled down.
#[verifier::allow_in_spec]
pub fn scaled<K: Fn(Op, Width, u64, u64) -> u64>(c: &Calc<K>, v: u32, scale: F32) -> u32
    requires
        c.sound(),
    returns
        (F32::of_count(c, v as u64).mul(c, scale).to_u32(c)),
{
    F32::of_count(c, v as u64).mul(c, scale).to_u32(c)
}

/// The size that a video of a size is decoded at: no wider than what is wanted at most,
/// and even.
pub fn decode_size<K: Fn(Op, Width, u64, u64) -> u64>(c: &Calc<K>, width: u32, height: u32) -> (r: (u32, u32))
    requires
        c.sound(),
    ensures
        r == (
            even(scaled(c, width, decode_scale(c, width))),
            even(scaled(c, height, decode_scale(c, width))),
        ),
        r.0 >= 2,
        r.1 >= 2,
{
    let scale: F32 = decode_scale(c, width);
    (even_size(scaled(c, width, scale)), even_size(scaled(c, height, scale)))
}

/// "WIDTHxHEIGHT", as ffmpeg takes a frame size.
pub fn size_text(w: u32, h: u32) -> (r: String)
    ensures
        r@ == text::decimal(w as nat) + seq!['x'] + text::decimal(h as nat),
{
    let mut s: String = String::new();
    text::push_decimal(&mut s, w as u64);
    s.push('x');
    text::push_decimal(&mut s, h as u64);
    assert(s@ =~= text::decimal(w as nat) + seq!['x'] + text::decimal(h as nat));
    s
}

/// The bytes of consecutive frames.
pub open spec fn frame_bytes(frames: Seq<Frame>) -> Seq<u8>
    decreases frames.len(),
{
    if frames.len() == 0 {
        seq![]
    } else {
        frame_bytes(frames.drop_last()) + frames.last().data@
    }
}

/// Cuts a stream of raw video into frames as the bytes come in.
pub struct FrameFeed {
    width: u32,
    height: u32,
    max: usize,
    part: Vec<u8>,
    frames: Vec<Frame>,
}

impl FrameFeed {
    pub closed spec fn wf(self) -> bool {
        &&& 0 < self.width * self.height * 4 <= u32::MAX
        &&& self.part@.len() < self.width * self.height * 4
        &&& forall|i: int|
            0 <= i < self.frames@.len() ==> (#[trigger] self.frames@[i]).wf() && self.frames@[i].width
                == self.width && self.frames@[i].height == self.height
    }

    /// The whole frames so far.
    pub closed spec fn whole(self) -> Seq<Frame> {
        self.frames@
    }

    /// The bytes of the frame that is under way.
    pub closed spec fn partial(self) -> Seq<u8> {
        self.part@
    }

    /// How many frames are wanted at most.
    pub closed spec fn wanted(self) -> nat {
        self.max as nat
    }

    /// How many bytes a frame has.
    pub closed spec fn size(self) -> nat {
        (self.width * self.height * 4) as nat
    }

    /// The frame size.
    pub closed spec fn dims(self) -> (u32, u32) {
        (self.width, self.height)
    }

    /// All bytes fed so far.
    pub open spec fn stream(self) -> Seq<u8> {
        frame_bytes(self.whole()) + self.partial()
    }

    /// Every whole frame is well-formed and of the frame size.
    pub proof fn law_finished_frames_are_whole(self)
        requires
            self.wf(),
        ensures
            forall|i: int|
                0 <= i < self.whole().len() ==> (#[trigger] self.whole()[i]).wf() && (
                self.whole()[i].width,
                self.whole()[i].height,
            ) == self.dims(),
            self.partial().len() < self.size(),
            self.size() == self.dims().0 * self.dims().1 * 4,
    {
    }

    pub fn new(width: u32, height: u32, max: usize) -> (r: FrameFeed)
        requires
            0 < width * height * 4 <= u32::MAX,
        ensures
            r.wf(),
            r.whole() == Seq::<Frame>::empty(),
            r.partial() == Seq::<u8>::empty(),
            r.wanted() == max,
            r.dims() == (width, height),
            r.size() == width * height * 4,
    {
        FrameFeed { width, height, max, part: Vec::new(), frames: Vec::new() }
    }

    /// How many bytes the frame under way still needs.
    pub fn room(&self) -> (r: usize)
        requires
            self.wf(),
        ensures
            r == self.size() - self.partial().len(),
            r > 0,
    {
        assert(self.width * self.height <= u32::MAX) by (nonlinear_arith)
            requires
                self.width * self.height * 4 <= u32::MAX,
        ;
        (self.width * self.height * 4) as usize - self.part.len()
    }

    /// Take up to `room` bytes that were read; none means that the stream ended,
    /// and a frame under way is dropped. Returns whether to read on.
    pub fn feed(&mut self, chunk: &Vec<u8>) -> (r: bool)
        requires
            old(self).wf(),
            chunk@.len() <= old(self).size() - old(self).partial().len(),
        ensures
            final(self).wf(),
            final(self).wanted() == old(self).wanted(),
            final(self).dims() == old(self).dims(),
            final(self).size() == old(self).size(),
            final(self).stream() == old(self).stream() + chunk@,
            final(self).whole().len() == old(self).whole().len() + (if chunk@.len()
                == old(self).size() - old(self).partial().len() {
                1int
            } else {
                0int
            }),
            forall|i: int|
                0 <= i < old(self).whole().len() ==> #[trigger] final(self).whole()[i]
                    == old(self).whole()[i],
            r == (chunk@.len() > 0 && (final(self).whole().len() == old(self).whole().len()
                || final(self).whole().len() < final(self).wanted())),
    {
        if chunk.len() == 0 {
            assert(self.stream() + chunk@ =~= self.stream());
            return false;
        }
        let room: usize = self.room();
        let ghost before = *self;
        let mut i: usize = 0;
        while i < chunk.len()
            invariant
                i <= chunk@.len(),
                self.width == before.width,
                self.height == before.height,
                self.max == before.max,
                self.frames == before.frames,
                self.part@ =~= before.part@ + chunk@.take(i as int),
            decreases chunk.len() - i,
        {
            self.part.push(chunk[i]);
            i += 1;
        }
        assert(chunk@.take(i as int) =~= chunk@);
        if chunk.len() < room {
            assert(self.stream() =~= before.stream() + chunk@);
            return true;
        }
        let mut data: Vec<u8> = Vec::new();
        data.append(&mut self.part);
        let f: Frame = Frame { width: self.width, height: self.height, data };
        self.frames.push(f);
        proof {
            assert(self.frames@.drop_last() =~= before.frames@);
            assert(self.part@ =~= seq![]);
            assert(self.stream() =~= before.stream() + chunk@);
        }
        self.frames.len() < self.max
    }

    /// The clip of the whole frames.
    pub fn finish(self) -> (r: Result<VideoClip, String>)
        requires
            self.wf(),
        ensures
            self.whole().len() > 0 ==> r is Ok && r->Ok_0.frames@ == self.whole() && r->Ok_0.fps
                == crate::num::single(DECODE_FPS_BITS),
            r is Ok ==> forall|i: int|
                0 <= i < r->Ok_0.frames@.len() ==> (#[trigger] r->Ok_0.frames@[i]).wf() && (
                r->Ok_0.frames@[i].width,
                r->Ok_0.frames@[i].height,
            ) == self.dims(),
            self.whole().len() == 0 ==> r is Err && r->Err_0@ == "no video frames decoded"@,
    {
        if self.frames.len() == 0 {
            return Err("no video frames decoded".to_owned());
        }
        Ok(VideoClip { frames: self.frames, fps: F32 { bits: DECODE_FPS_BITS } })
    }
}

/// The number that four bytes write, least significant first.
pub open spec fn le_bits(b: Seq<u8>, i: int) -> int {
    b[4 * i] + 256 * b[4 * i + 1] + 65536 * b[4 * i + 2] + 16777216 * b[4 * i + 3]
}

/// The samples that ffmpeg writes: each four bytes are one pattern, least
/// significant byte first; a rest is dropped.
pub fn samples_from_le(bytes: &Vec<u8>) -> (r: Result<Vec<F32>, String>)
    ensures
        bytes@.len() < 4 ==> r is Err && r->Err_0@ == "no audio stream decoded"@,
        bytes@.len() >= 4 ==> r is Ok && r->Ok_0@.len() == bytes@.len() / 4 && forall|i: int|
            0 <= i < bytes@.len() / 4 ==> (#[trigger] r->Ok_0@[i]).bits == le_bits(bytes@, i),
{
    let n: usize = bytes.len() / 4;
    if n == 0 {
        return Err("no audio stream decoded".to_owned());
    }
    let mut out: Vec<F32> = Vec::new();
    let mut i: usize = 0;
    while i < n
        invariant
            i <= n,
            n == bytes.len() / 4,
            out@.len() == i,
            forall|j: int| 0 <= j < i ==> (#[trigger] out@[j]).bits == le_bits(bytes@, j),
        decreases n - i,
    {
        let bits: u32 = bytes[4 * i] as u32 + 256 * bytes[4 * i + 1] as u32 + 65536 * bytes[4 * i
            + 2] as u32 + 16777216 * bytes[4 * i + 3] as u32;
        out.push(F32 { bits });
        i += 1;
    }
    Ok(out)
}

/// The sum of the samples from `from` up to `to`, in order.
pub open spec fn span_sum<K: Fn(Op, Width, u64, u64) -> u64>(c: &Calc<K>, raw: Seq<F32>, from: int, to: int) -> F32
    decreases to - from,
{
    if to <= from {
        single(0)
    } else {
        span_sum(c, raw, from, to - 1).add(c, raw[to - 1])
    }
}

/// Interleaved samples of `n` channels mixed down to mono.
pub open spec fn mixed_down<K: Fn(Op, Width, u64, u64) -> u64>(c: &Calc<K>, raw: Seq<F32>, n: int) -> Seq<F32> {
    Seq::new(
        ((raw.len() + n - 1) / n) as nat,
        |k: int|
            span_sum(
                c,
                raw,
                k * n,
                if (k + 1) * n < raw.len() {
                    (k + 1) * n
                } else {
                    raw.len() as int
                },
            ).div(c, F32::of_count(c, n as u64)),
    )
}

fn sum_span<K: Fn(Op, Width, u64, u64) -> u64>(c: &Calc<K>, raw: &Vec<F32>, from: usize, to: usize) -> (r: F32)
    requires
        c.sound(),
        from <= to <= raw@.len(),
    ensures
        r == span_sum(c, raw@, from as int, to as int),
{
    let mut sum: F32 = single(0);
    let mut i: usize = from;
    while i < to
        invariant
            c.sound(),
            from <= i <= to <= raw@.len(),
            sum == span_sum(c, raw@, from as int, i as int),
        decreases to - i,
    {
        sum = sum.add(c, raw[i]);
        i += 1;
    }
    sum
}

/// Interleaved samples mixed down to mono: each group of `channels` samples gives
/// their mean. A wave file without channels counts as mono.
pub fn mixdown<K: Fn(Op, Width, u64, u64) -> u64>(c: &Calc<K>, raw: &Vec<F32>, channels: u16) -> (r: Vec<F32>)
    requires
        c.sound(),
    ensures
        r@ == mixed_down(
            c,
            raw@,
            if channels == 0 {
                1int
            } else {
                channels as int
            },
        ),
{
    let n: usize = if channels == 0 { 1 } else { channels as usize };
    let len: usize = raw.len();
    let mut out: Vec<F32> = Vec::new();
    let mut at: usize = 0;
    assert(0 * n == 0 && (0 - 1) * n == -n) by (nonlinear_arith);
    while at < len
        invariant
            c.sound(),
            0 < n <= u16::MAX,
            len == raw.len(),
            at == if out@.len() * n < len {
                out@.len() * n
            } else {
                len as int
            },
            (out@.len() - 1) * n < len,
            forall|k: int|
                0 <= k < out@.len() ==> #[trigger] out@[k] == span_sum(
                    c,
                    raw@,
                    k * n,
                    if (k + 1) * n < len {
                        (k + 1) * n
                    } else {
                        len as int
                    },
                ).div(c, F32::of_count(c, n as u64)),
        decreases len - at,
    {
        let to: usize = if len - at > n { at + n } else { len };
        let ghost k = out@.len() as int;
        assert((k + 1) * n == k * n + n) by (nonlinear_arith);
        assert(((k + 1) - 1) * n == k * n);
        let v: F32 = sum_span(c, raw, at, to).div(c, F32::of_count(c, n as u64));
        out.push(v);
        at = to;
    }
    proof {
        let m = out@.len() as int;
        assert(m * n >= len);
        assert((m - 1) * n == m * n - n) by (nonlinear_arith);
        assert((len + n - 1) / (n as int) == m) by (nonlinear_arith)
            requires
                n > 0,
                m * n >= len,
                m * n - n < len,
        ;
        assert(out@ =~= mixed_down(c, raw@, n as int));
    }
    out
}

/// Whether a file extension says that the file is a wave file.
pub fn is_wav(extension: &str) -> (r: bool)
    ensures
        r == (text::lowered(extension@) == "wav"@),
{
    let l: Vec<char> = text::to_lowered(extension);
    text::spells(&l, "wav")
}

/// A file must give audio or video.
pub fn require_media(name: &str, audio: bool, video: bool) -> (r: Result<(), String>)
    ensures
        audio || video ==> r is Ok,
        !audio && !video ==> r is Err && r->Err_0@ == name@ + ": no decodable audio or video"@,
{
    if audio || video {
        Ok(())
    } else {
        let mut e: String = name.to_owned();
        e.append(": no decodable audio or video");
        Err(e)
    }
}

/// The size of the frames to encode: all must share one.
pub fn encode_size(frames: &Vec<Frame>) -> (r: Result<(u32, u32), String>)
    ensures
        frames@.len() == 0 ==> r is Err && r->Err_0@ == "nothing to encode"@,
        frames@.len() > 0 && (exists|i: int|
            0 <= i < frames@.len() && ((#[trigger] frames@[i]).width != frames@[0].width
                || frames@[i].height != frames@[0].height)) ==> r is Err && r->Err_0@
            == "inconsistent frame sizes"@,
        frames@.len() > 0 && (forall|i: int|
            0 <= i < frames@.len() ==> (#[trigger] frames@[i]).width == frames@[0].width
                && frames@[i].height == frames@[0].height) ==> r == Ok::<(u32, u32), String>(
            (frames@[0].width, frames@[0].height),
        ),
{
    if frames.len() == 0 {
        return Err("nothing to encode".to_owned());
    }
    let w: u32 = frames[0].width;
    let h: u32 = frames[0].height;
    let mut i: usize = 0;
    while i < frames.len()
        invariant
            i <= frames@.len(),
            frames@.len() > 0,
            w == frames@[0].width,
            h == frames@[0].height,
            forall|j: int| 0 <= j < i ==> (#[trigger] frames@[j]).width == w && frames@[j].height == h,
        decreases frames.len() - i,
    {
        if frames[i].width != w || frames[i].height != h {
            assert(frames@[i as int].width != w || frames@[i as int].height != h);
            return Err("inconsistent frame sizes".to_owned());
        }
        i += 1;
    }
    Ok((w, h))
}

/// A source made of what a file holds. Its base pitch is that of the sound, or unknown.
pub fn loaded_source<K: Fn(Op, Width, u64, u64) -> u64>(c: &Calc<K>, name: String, audio: Option<AudioClip>, video: Option<VideoClip>) -> (r: Source)
    requires
        c.sound(),
    ensures
        r.name == name,
        r.audio is Some <==> audio is Some,
        r.audio is Some ==> *r.audio->0 == audio->0,
        r.video is Some <==> video is Some,
        r.video is Some ==> *r.video->0 == video->0,
        r.base_hz == match audio {
            Some(a) => match pitch(c, a.samples@, a.sample_rate) {
                Some(hz) => hz,
                None => single(0),
            },
            None => single(0),
        },
{
    let base_hz: F32 = match &audio {
        Some(a) => match detect_pitch(c, &a.samples, a.sample_rate) {
            Some(hz) => hz,
            None => single(0),
        },
        None => single(0),
    };
    let audio: Option<Arc<AudioClip>> = match audio {
        Some(a) => Some(Arc::new(a)),
        None => None,
    };
    let video: Option<Arc<VideoClip>> = match video {
        Some(v) => Some(Arc::new(v)),
        None => None,
    };
    Source { name, audio, video, base_hz }
}

/// The source that is left of another one where its video is cut out by a prompt: sound
/// and base pitch pass through.
pub fn segmented_source(source: &Source, prompt: &str, video: VideoClip) -> (r: Source)
    ensures
        r.name@ == prompt@ + " @ "@ + source.name@,
        r.audio == source.audio,
        r.video == Some(Arc::new(video)),
        r.base_hz == source.base_hz,
{
    let audio: Option<Arc<AudioClip>> = match &source.audio {
        Some(a) => Some(a.clone()),
        None => None,
    };
    Source {
        name: segmented_name(prompt, source.name.as_str()),
        audio,
        video: Some(Arc::new(video)),
        base_hz: source.base_hz,
    }
}

/// How far the edges of masks are softened on frames of a size.
#[verifier::allow_in_spec]
pub fn feather_radius<K: Fn(Op, Width, u64, u64) -> u64>(c: &Calc<K>, width: u32, height: u32) -> u32
    requires
        c.sound(),
    returns
        (if F32::of_count(c, (if width < height { width } else { height }) as u64).mul(c, single(0x3c23_d70a)).to_u32(c) < 1 {
            1u32
        } else {
            F32::of_count(c, (if width < height { width } else { height }) as u64).mul(c, single(0x3c23_d70a)).to_u32(c)
        }),
{
    let least: u32 = if width < height { width } else { height };
    let r: u32 = F32::of_count(c, least as u64).mul(c, single(0x3c23_d70a)).to_u32(c);
    if r < 1 {
        1
    } else {
        r
    }
}

/// Silence as long as a video, at least a tenth of a second.
pub fn silent_sound<K: Fn(Op, Width, u64, u64) -> u64>(c: &Calc<K>, video: &VideoClip) -> (r: StereoBuffer)
    requires
        c.sound(),
    ensures
        r.wf(),
        r.sample_rate == 44100,
        r.left@ == Seq::new(
            video.lasts(c).max(double(0x3fb9_9999_9999_999a)).mul(c, F64::of_count(c, 44100)).ceil(c).to_size(
                c,
            ) as nat,
            |i: int| single(0),
        ),
        r.right@ == r.left@,
{
    StereoBuffer::new(c, video.duration(c).max(double(0x3fb9_9999_9999_999a)), 44100)
}

/// The name of a source fetched from a URL.
pub fn fetched_name(url: &str) -> (r: String)
    ensures
        r@ == "yt: "@ + url@,
{
    let mut s: String = "yt: ".to_owned();
    s.append(url);
    s
}

/// The name of a source cut out of another one by a prompt.
pub fn segmented_name(prompt: &str, source: &str) -> (r: String)
    ensures
        r@ == prompt@ + " @ "@ + source@,
{
    text::join3(prompt, " @ ", source)
}

// -------------------------------------------------------------------- wav

/// A sample as a 16-bit number.
#[verifier::allow_in_spec]
pub fn pcm_of<K: Fn(Op, Width, u64, u64) -> u64>(c: &Calc<K>, s: F32) -> i16
    requires
        c.sound(),
    returns
        (if s.limit(single(0xbf80_0000), single(0x3f80_0000)).mul(c, single(0x46ff_fe00)).to_int(c) < -32768 {
            i16::MIN
        } else if s.limit(single(0xbf80_0000), single(0x3f80_0000)).mul(c, single(0x46ff_fe00)).to_int(c) > 32767 {
            i16::MAX
        } else {
            s.limit(single(0xbf80_0000), single(0x3f80_0000)).mul(c, single(0x46ff_fe00)).to_int(c) as i16
        }),
{
    if s.limit(single(0xbf80_0000), single(0x3f80_0000)).mul(c, single(0x46ff_fe00)).to_int(c) < -32768 {
        i16::MIN
    } else if s.limit(single(0xbf80_0000), single(0x3f80_0000)).mul(c, single(0x46ff_fe00)).to_int(c) > 32767 {
        i16::MAX
    } else {
        s.limit(single(0xbf80_0000), single(0x3f80_0000)).mul(c, single(0x46ff_fe00)).to_int(c) as i16
    }
}

/// A whole number of a given size as a sample.
#[verifier::allow_in_spec]
pub fn sample_of<K: Fn(Op, Width, u64, u64) -> u64>(c: &Calc<K>, v: i32, bits: u16) -> F32
    requires
        c.sound(),
        1 <= bits <= 63,
    returns
        (F32::of_int(c, v as i64).div(c, F32::of_int(c, 1i64 << ((bits - 1) as u32)))),
{
    F32::of_int(c, v as i64).div(c, F32::of_int(c, 1i64 << ((bits - 1) as u32)))
}

/// The 16-bit numbers that a buffer is saved as, left and right in turn.
pub fn pcm_frames<K: Fn(Op, Width, u64, u64) -> u64>(c: &Calc<K>, buffer: &StereoBuffer) -> (r: Vec<i16>)
    requires
        c.sound(),
        buffer.wf(),
    ensures
        r@.len() == 2 * buffer.left@.len(),
        forall|i: int|
            0 <= i < buffer.left@.len() ==> #[trigger] r@[2 * i] == pcm_of(c, buffer.left@[i]),
        forall|i: int|
            0 <= i < buffer.left@.len() ==> #[trigger] r@[2 * i + 1] == pcm_of(
                c,
                buffer.right@[i],
            ),
{
    let mut out: Vec<i16> = Vec::new();
    let mut i: usize = 0;
    while i < buffer.left.len()
        invariant
            c.sound(),
            buffer.wf(),
            i <= buffer.left@.len(),
            out@.len() == 2 * i,
            forall|k: int| 0 <= k < i ==> #[trigger] out@[2 * k] == pcm_of(c, buffer.left@[k]),
            forall|k: int|
                0 <= k < i ==> #[trigger] out@[2 * k + 1] == pcm_of(c, buffer.right@[k]),
        decreases buffer.left.len() - i,
    {
        out.push(pcm_of(c, buffer.left[i]));
        out.push(pcm_of(c, buffer.right[i]));
        i += 1;
    }
    out
}

/// Whole numbers of a given size as samples.
pub fn samples_from_pcm<K: Fn(Op, Width, u64, u64) -> u64>(c: &Calc<K>, raw: &Vec<i32>, bits: u16) -> (r: Vec<F32>)
    requires
        c.sound(),
        1 <= bits <= 63,
    ensures
        r@ == raw@.map_values(|v: i32| sample_of(c, v, bits)),
{
    let mut out: Vec<F32> = Vec::new();
    let mut i: usize = 0;
    while i < raw.len()
        invariant
            c.sound(),
            1 <= bits <= 63,
            i <= raw@.len(),
            out@ =~= raw@.map_values(|v: i32| sample_of(c, v, bits)).take(i as int),
        decreases raw.len() - i,
    {
        out.push(sample_of(c, raw[i], bits));
        i += 1;
    }
    assert(out@ =~= raw@.map_values(|v: i32| sample_of(c, v, bits)));
    out
}

/// The mono clip of the samples of a file.
pub fn wav_clip<K: Fn(Op, Width, u64, u64) -> u64>(c: &Calc<K>, raw: &Vec<F32>, channels: u16, sample_rate: u32) -> (r: AudioClip)
    requires
        c.sound(),
    ensures
        r.sample_rate == sample_rate,
        r.samples@ == mixed_down(
            c,
            raw@,
            if channels < 1 {
                1
            } else {
                channels as int
            },
        ),
{
    let n: u16 = if channels < 1 {
        1
    } else {
        channels
    };
    AudioClip::new(mixdown(c, raw, n), sample_rate)
}

/// A number below 2^16 in two bytes, the low one first.
pub open spec fn two_bytes(v: int) -> Seq<u8> {
    seq![(v % 256) as u8, (v / 256 % 256) as u8]
}

/// A number below 2^32 in four bytes, the lowest first.
pub open spec fn four_bytes(v: int) -> Seq<u8> {
    two_bytes(v % 65536) + two_bytes(v / 65536)
}

/// The part of a WAV file of 16-bit samples that says how they are to be read.
pub open spec fn wav_format(channels: int, rate: int) -> Seq<u8> {
    seq![87u8, 65, 86, 69, 102, 109, 116, 32] + four_bytes(16) + two_bytes(1) + two_bytes(channels) + four_bytes(rate)
        + four_bytes(rate * 2 * channels) + two_bytes(2 * channels) + two_bytes(16) + seq![100u8, 97, 116, 97]
}

/// What a WAV file of 16-bit samples starts with, where `bytes` bytes of samples follow.
pub open spec fn wav_header(channels: int, rate: int, bytes: int) -> Seq<u8> {
    seq![82u8, 73, 70, 70] + four_bytes(bytes + 36) + wav_format(channels, rate) + four_bytes(bytes)
}

/// The bytes of 16-bit samples, in two's complement.
pub open spec fn wav_samples(samples: Seq<i16>) -> Seq<u8> {
    Seq::new(2 * samples.len(), |i: int| two_bytes(samples[i / 2] as int % 65536)[i % 2])
}

/// A WAV file of 16-bit samples.
pub open spec fn wav_file(channels: int, rate: int, samples: Seq<i16>) -> Seq<u8> {
    wav_header(channels, rate, 2 * samples.len() as int) + wav_samples(samples)
}

/// Whether a WAV file can hold that many samples at that rate on so many channels: the
/// header's numbers fit their fields, and the samples fill the channels.
pub open spec fn wav_holds(channels: int, rate: int, samples: nat) -> bool {
    &&& 1 <= channels <= 2
    &&& 1 <= rate
    &&& rate * 2 * channels <= u32::MAX
    &&& 2 * samples + 36 <= u32::MAX
    &&& samples as int % channels == 0
}

/// `hound::WavWriter` writes samples out as a WAV file of 16-bit numbers: a header of 44
/// bytes that names the channels and the rate and counts the bytes to come, and then the
/// samples in order, two bytes each. Into memory that succeeds, for what such a file can
/// hold.
#[verifier::external_body]
fn encode_wav(samples: &Vec<i16>, channels: u16, rate: u32, bits: u16) -> (r: Result<Vec<u8>, String>)
    requires
        bits == 16,
        wav_holds(channels as int, rate as int, samples@.len()),
    ensures
        r is Ok && r->Ok_0@ == wav_file(channels as int, rate as int, samples@),
{
    let sample_format = hound::SampleFormat::Int;
    let spec = hound::WavSpec { channels, sample_rate: rate, bits_per_sample: bits, sample_format };
    let mut out = std::io::Cursor::new(Vec::new());
    let mut writer = hound::WavWriter::new(&mut out, spec).map_err(|e| e.to_string())?;
    for v in samples {
        writer.write_sample(*v).map_err(|e| e.to_string())?;
    }
    writer.finalize().map_err(|e| e.to_string())?;
    Ok(out.into_inner())
}

/// The 16-bit numbers of a sound, left and right in turn.
pub open spec fn pcm_in_turn<K: Fn(Op, Width, u64, u64) -> u64>(c: &Calc<K>, left: Seq<F32>, right: Seq<F32>) -> Seq<i16> {
    Seq::new(
        2 * left.len(),
        |i: int|
            if i % 2 == 0 {
                pcm_of(c, left[i / 2])
            } else {
                pcm_of(c, right[i / 2])
            },
    )
}

/// A buffer as a WAV file: two channels of 16-bit numbers. A file holds less than 4 GiB.
pub fn wav_bytes<K: Fn(Op, Width, u64, u64) -> u64>(c: &Calc<K>, buffer: &StereoBuffer) -> (r: Result<Vec<u8>, String>)
    requires
        c.sound(),
        buffer.wf(),
        1 <= buffer.sample_rate <= u32::MAX / 4,
        4 * buffer.left@.len() + 36 <= u32::MAX,
    ensures
        r is Ok && r->Ok_0@ == wav_file(2, buffer.sample_rate as int, pcm_in_turn(c, buffer.left@, buffer.right@)),
{
    let samples: Vec<i16> = pcm_frames(c, buffer);
    proof {
        let all = pcm_in_turn(c, buffer.left@, buffer.right@);
        assert forall|i: int| 0 <= i < samples@.len() implies samples@[i] == all[i] by {
            let k = i / 2;
            if i % 2 == 0 {
                assert(samples@[2 * k] == pcm_of(c, buffer.left@[k]));
            } else {
                assert(samples@[2 * k + 1] == pcm_of(c, buffer.right@[k]));
            }
        }
        assert(samples@ =~= all);
    }
    encode_wav(&samples, 2, buffer.sample_rate, 16)
}

/// What a WAV file of whole numbers holds: its channels, its rate, its bits per sample and
/// the numbers in order; or what is wrong with it.
pub uninterp spec fn wav_read(bytes: Seq<u8>) -> Result<(u16, u32, u16, Seq<i32>), Seq<char>>;

/// `hound::WavReader` reads a WAV file of whole numbers: what it reads, or the error that it
/// reports, is the named result of the bytes. It reads numbers of 8, 16, 24 and 32 bits
/// alone. From a file of 16-bit samples it reads back the channels, the rate and the
/// samples that the file was made of.
#[verifier::external_body]
fn decode_wav(bytes: &Vec<u8>) -> (r: Result<(u16, u32, u16, Vec<i32>), String>)
    ensures
        match r {
            Ok(w) => wav_read(bytes@) == Ok::<(u16, u32, u16, Seq<i32>), Seq<char>>((w.0, w.1, w.2, w.3@)),
            Err(e) => wav_read(bytes@) == Err::<(u16, u32, u16, Seq<i32>), Seq<char>>(e@),
        },
        r is Ok && r->Ok_0.3@.len() > 0 ==> r->Ok_0.2 == 8 || r->Ok_0.2 == 16 || r->Ok_0.2 == 24 || r->Ok_0.2 == 32,
        forall|channels: int, rate: int, samples: Seq<i16>|
            wav_holds(channels, rate, samples.len()) && bytes@ == #[trigger] wav_file(channels, rate, samples) ==> {
                &&& r is Ok
                &&& r->Ok_0.0 == channels
                &&& r->Ok_0.1 == rate
                &&& r->Ok_0.2 == 16
                &&& r->Ok_0.3@ == samples.map_values(|v: i16| v as i32)
            },
{
    let mut reader = hound::WavReader::new(bytes.as_slice()).map_err(|e| e.to_string())?;
    let spec = reader.spec();
    let mut whole = Vec::new();
    for v in reader.samples::<i32>() {
        whole.push(v.map_err(|e| e.to_string())?);
    }
    Ok((spec.channels, spec.sample_rate, spec.bits_per_sample, whole))
}

/// A sound as it is read back after it was saved: as 16-bit numbers, mixed down to mono.
pub open spec fn reread<K: Fn(Op, Width, u64, u64) -> u64>(c: &Calc<K>, left: Seq<F32>, right: Seq<F32>) -> Seq<F32> {
    mixed_down(c, pcm_in_turn(c, left, right).map_values(|v: i16| sample_of(c, v as i32, 16)), 2)
}

/// The mono clip of a WAV file of whole numbers. A saved buffer is read back: at its rate,
/// with the samples that it was saved as.
pub fn wav_from_bytes<K: Fn(Op, Width, u64, u64) -> u64>(c: &Calc<K>, bytes: &Vec<u8>) -> (r: Result<AudioClip, String>)
    requires
        c.sound(),
    ensures
        match wav_read(bytes@) {
            Err(e) => r is Err && r->Err_0@ == e,
            Ok((channels, rate, bits, whole)) => if 1 <= bits <= 64 {
                &&& r is Ok
                &&& r->Ok_0.sample_rate == rate
                &&& r->Ok_0.samples@ == mixed_down(
                    c,
                    whole.map_values(|v: i32| sample_of(c, v, bits)),
                    if channels < 1 {
                        1
                    } else {
                        channels as int
                    },
                )
            } else {
                r is Err && r->Err_0@ == "bad number of bits per sample"@
            },
        },
        forall|rate: int, left: Seq<F32>, right: Seq<F32>|
            left.len() == right.len() && wav_holds(2, rate, 2 * left.len()) && bytes@ == #[trigger] wav_file(
                2,
                rate,
                pcm_in_turn(c, left, right),
            ) ==> r is Ok && r->Ok_0.sample_rate == rate && r->Ok_0.samples@ == reread(c, left, right),
{
    match decode_wav(bytes) {
        Err(e) => Err(e),
        Ok((channels, rate, bits, whole)) => {
            if bits < 1 || bits > 64 {
                return Err("bad number of bits per sample".to_owned());
            }
            let raw: Vec<F32> = if whole.len() == 0 {
                Vec::new()
            } else {
                samples_from_pcm(c, &whole, bits)
            };
            assert(raw@ =~= whole@.map_values(|v: i32| sample_of(c, v, bits)));
            proof {
                assert forall|rate: int, left: Seq<F32>, right: Seq<F32>|
                    left.len() == right.len() && wav_holds(2, rate, 2 * left.len()) && bytes@ == #[trigger] wav_file(
                        2,
                        rate,
                        pcm_in_turn(c, left, right),
                    ) implies raw@ == pcm_in_turn(c, left, right).map_values(|v: i16| sample_of(c, v as i32, 16)) by {
                    assert(raw@ =~= pcm_in_turn(c, left, right).map_values(|v: i16| sample_of(c, v as i32, 16)));
                }
            }
            Ok(wav_clip(c, &raw, channels, rate))
        },
    }
}

/// A WAV file has 44 bytes before its samples, and they say how many follow: file and
/// samples are each as long as the header counts.
pub proof fn law_wav_files_count_themselves<K: Fn(Op, Width, u64, u64) -> u64>(c: &Calc<K>, left: Seq<F32>, right: Seq<F32>, rate: u32)
    requires
        left.len() == right.len(),
        rate <= u32::MAX / 4,
        4 * left.len() + 36 <= u32::MAX,
    ensures
        ({
            let file = wav_file(2, rate as int, pcm_in_turn(c, left, right));
            &&& file.len() == 44 + 4 * left.len()
            &&& file.subrange(4, 8) == four_bytes(file.len() - 8)
            &&& file.subrange(40, 44) == four_bytes(file.len() - 44)
        }),
{
    let n = 4 * left.len() as int;
    lemma_wav_format(2, rate as int);
    lemma_counts_stand(
        seq![82u8, 73, 70, 70],
        four_bytes(n + 36),
        wav_format(2, rate as int),
        four_bytes(n),
        wav_samples(pcm_in_turn(c, left, right)),
    );
}

proof fn lemma_wav_format(channels: int, rate: int)
    ensures
        wav_format(channels, rate).len() == 32,
{
}

proof fn lemma_counts_stand(a: Seq<u8>, b: Seq<u8>, m: Seq<u8>, z: Seq<u8>, w: Seq<u8>)
    requires
        a.len() == 4,
        b.len() == 4,
        m.len() == 32,
        z.len() == 4,
    ensures
        (a + b + m + z + w).len() == 44 + w.len(),
        (a + b + m + z + w).subrange(4, 8) == b,
        (a + b + m + z + w).subrange(40, 44) == z,
{
    assert((a + b + m + z + w).subrange(4, 8) =~= b);
    assert((a + b + m + z + w).subrange(40, 44) =~= z);
}

// -------------------------------------------------------------------- png

/// The bytes of a PNG file with the given pixels, four bytes each, or what is wrong with
/// them.
pub uninterp spec fn png_file(data: Seq<u8>, width: u32, height: u32) -> Result<Seq<u8>, Seq<char>>;

/// `image::codecs::png::PngEncoder` writes pixels out as a PNG file: what it writes, or the
/// error that it reports, is the named result of the pixels and the size. It takes exactly
/// as many bytes as the size says.
#[verifier::external_body]
fn encode_png(data: &Vec<u8>, width: u32, height: u32) -> (r: Result<Vec<u8>, String>)
    requires
        data@.len() == width * height * 4,
    ensures
        match r {
            Ok(v) => png_file(data@, width, height) == Ok::<Seq<u8>, Seq<char>>(v@),
            Err(e) => png_file(data@, width, height) == Err::<Seq<u8>, Seq<char>>(e@),
        },
{
    let mut out: Vec<u8> = Vec::new();
    let encoder = image::codecs::png::PngEncoder::new(&mut out);
    let color = image::ExtendedColorType::Rgba8;
    match image::ImageEncoder::write_image(encoder, data, width, height, color) {
        Ok(()) => Ok(out),
        Err(e) => Err(e.to_string()),
    }
}

/// A frame as a PNG file.
pub fn png_bytes(frame: &Frame) -> (r: Result<Vec<u8>, String>)
    ensures
        if frame.data@.len() < frame.width * frame.height * 4 {
            r is Err && r->Err_0@ == "bad frame dimensions"@
        } else {
            match png_file(
                frame.data@.take(frame.width * frame.height * 4),
                frame.width,
                frame.height,
            ) {
                Ok(bytes) => r is Ok && r->Ok_0@ == bytes,
                Err(e) => r is Err && r->Err_0@ == e,
            }
        },
{
    assert(frame.width * frame.height * 4 <= u32::MAX * u32::MAX * 4) by (nonlinear_arith)
        requires
            frame.width <= u32::MAX,
            frame.height <= u32::MAX,
    ;
    let n: u128 = frame.width as u128 * frame.height as u128 * 4;
    if (frame.data.len() as u128) < n {
        return Err("bad frame dimensions".to_owned());
    }
    let mut data: Vec<u8> = frame.data.clone();
    data.truncate(n as usize);
    assert(data@ =~= frame.data@.take(frame.width * frame.height * 4));
    encode_png(&data, frame.width, frame.height)
}

} // verus!
