//! Reversal of the per-scanline predictive filters.
use vstd::prelude::*;
use vstd::arithmetic::div_mod::lemma_fundamental_div_mod_converse;
use crate::DecodeError;

verus! {

/// Distance between two integers.
pub open spec fn dist(x: int, y: int) -> int {
    if x >= y { x - y } else { y - x }
}

/// The Paeth predictor: the neighbor closest to `left + above - above_left`,
/// ties going to `left`, then `above`.
pub open spec fn paeth(a: u8, b: u8, c: u8) -> u8 {
    let p = a + b - c;
    if dist(p, a as int) <= dist(p, b as int) && dist(p, a as int) <= dist(p, c as int) {
        a
    } else if dist(p, b as int) <= dist(p, c as int) {
        b
    } else {
        c
    }
}

/// The prediction that filter `mode` makes from left `a`, above `b` and
/// above-left `c`; mode 0 (and any unknown mode) predicts 0.
pub open spec fn predict(mode: u8, a: u8, b: u8, c: u8) -> u8 {
    if mode == 1 {
        a
    } else if mode == 2 {
        b
    } else if mode == 3 {
        ((a + b) / 2) as u8
    } else if mode == 4 {
        paeth(a, b, c)
    } else {
        0
    }
}

/// Byte recovered from filtered byte `x`, modulo 256.
pub open spec fn unfilter(mode: u8, x: u8, a: u8, b: u8, c: u8) -> u8 {
    ((x + predict(mode, a, b, c)) % 256) as u8
}

/// The filter mode byte that starts row `row` of `data`.
pub open spec fn row_mode(data: Seq<u8>, stride: int, row: int) -> u8 {
    data[row * (stride + 1)]
}

/// The filtered byte for output position `i`.
pub open spec fn filtered_at(data: Seq<u8>, stride: int, i: int) -> u8 {
    data[(i / stride) * (stride + 1) + 1 + i % stride]
}

/// The reconstructed byte at flat position `i` of the output, for rows of
/// `stride` bytes and pixels of `bpp` bytes; neighbors outside the raster are 0.
pub open spec fn recon_at(data: Seq<u8>, stride: int, bpp: int, i: int) -> u8
    decreases i,
{
    if i < 0 || stride <= 0 || bpp <= 0 {
        0
    } else {
        let row = i / stride;
        let col = i % stride;
        let a = if col >= bpp && i >= bpp { recon_at(data, stride, bpp, i - bpp) } else { 0 };
        let b = if i >= stride { recon_at(data, stride, bpp, i - stride) } else { 0 };
        let c = if col >= bpp && i >= stride + bpp { recon_at(data, stride, bpp, i - stride - bpp) } else { 0 };
        unfilter(row_mode(data, stride, row), filtered_at(data, stride, i), a, b, c)
    }
}

/// Whether every one of the `height` rows names a known filter mode.
pub open spec fn modes_known(data: Seq<u8>, stride: int, height: int) -> bool {
    forall|r: int| 0 <= r < height ==> row_mode(data, stride, r) <= 4
}

/// Predictor for filter mode 4.
pub fn paeth_predictor(a: u8, b: u8, c: u8) -> (r: u8)
    ensures
        r == paeth(a, b, c),
        ({
            let p = a + b - c;
            let (da, db, dc) = (dist(p, a as int), dist(p, b as int), dist(p, c as int));
            (r == a && da <= db && da <= dc) || (r == b && db < da && db <= dc) || (r == c
                && dc < da && dc < db)
        }),
{
    let ai = a as i16;
    let bi = b as i16;
    let ci = c as i16;
    let p = ai + bi - ci;
    let pa = if p >= ai { p - ai } else { ai - p };
    let pb = if p >= bi { p - bi } else { bi - p };
    let pc = if p >= ci { p - ci } else { ci - p };
    if pa <= pb && pa <= pc {
        a
    } else if pb <= pc {
        b
    } else {
        c
    }
}

/// Recovers one byte under a known filter mode.
pub fn unfilter_byte(mode: u8, x: u8, a: u8, b: u8, c: u8) -> (r: u8)
    requires
        mode <= 4,
    ensures
        r == unfilter(mode, x, a, b, c),
{
    if mode == 0 {
        x
    } else if mode == 1 {
        x.wrapping_add(a)
    } else if mode == 2 {
        x.wrapping_add(b)
    } else if mode == 3 {
        x.wrapping_add(((a as u16 + b as u16) / 2) as u8)
    } else {
        x.wrapping_add(paeth_predictor(a, b, c))
    }
}

/// Reverses the filters of `height` rows, each stored as a mode byte and
/// `stride` filtered bytes; pixels are `bpp` bytes wide.
pub fn unfilter_scanlines(data: &Vec<u8>, stride: usize, bpp: usize, height: usize) -> (r: Result<
    Vec<u8>,
    DecodeError,
>)
    requires
        0 < bpp <= stride < usize::MAX,
    ensures
        r.is_ok() <==> (data@.len() == height * (stride + 1) && modes_known(
            data@,
            stride as int,
            height as int,
        )),
        r.is_err() ==> r == Err::<Vec<u8>, DecodeError>(DecodeError::CorruptDataError),
        r matches Ok(out) ==> out@.len() == height * stride && forall|i: int|
            0 <= i < height * stride ==> out@[i] == recon_at(data@, stride as int, bpp as int, i),
{
    let line = stride + 1;
    let n = data.len();
    let expected = match height.checked_mul(line) {
        Some(n) => n,
        None => {
            return Err(DecodeError::CorruptDataError);
        },
    };
    if n != expected {
        return Err(DecodeError::CorruptDataError);
    }
    let mut r: usize = 0;
    while r < height
        invariant
            r <= height,
            data@.len() == height * line,
            expected == height * line,
            line == stride + 1,
            forall|k: int| 0 <= k < r ==> row_mode(data@, stride as int, k) <= 4,
        decreases height - r,
    {
        assert(r * line + line <= height * line) by (nonlinear_arith)
            requires
                r < height,
        ;
        if data[r * line] > 4 {
            assert(row_mode(data@, stride as int, r as int) > 4);
            return Err(DecodeError::CorruptDataError);
        }
        r = r + 1;
    }
    assert(height * stride <= height * line) by (nonlinear_arith)
        requires
            line == stride + 1,
    ;
    let mut out: Vec<u8> = Vec::new();
    let ghost d = data@;
    let mut row_start: usize = 0;
    r = 0;
    while r < height
        invariant
            r <= height,
            d == data@,
            d.len() == height * line,
            expected == height * line,
            line == stride + 1,
            0 < bpp <= stride,
            modes_known(d, stride as int, height as int),
            row_start == r * line,
            out@.len() == r * stride,
            forall|j: int| 0 <= j < out@.len() ==> out@[j] == recon_at(d, stride as int, bpp as int, j),
        decreases height - r,
    {
        assert(row_start + line <= height * line) by (nonlinear_arith)
            requires
                row_start == r * line,
                r < height,
        ;
        let mode = data[row_start];
        let mut c: usize = 0;
        while c < stride
            invariant
                r < height,
                d == data@,
                d.len() == height * line,
                expected == height * line,
                line == stride + 1,
                0 < bpp <= stride,
                modes_known(d, stride as int, height as int),
                row_start == r * line,
                row_start + line <= height * line,
                mode == row_mode(d, stride as int, r as int),
                c <= stride,
                out@.len() == r * stride + c,
                forall|j: int| 0 <= j < out@.len() ==> out@[j] == recon_at(d, stride as int, bpp as int, j),
            decreases stride - c,
        {
            let i = out.len();
            proof {
                lemma_fundamental_div_mod_converse(i as int, stride as int, r as int, c as int);
                if r > 0 {
                    assert(i >= stride + c) by (nonlinear_arith)
                        requires
                            i == r * stride + c,
                            r > 0,
                            stride > 0,
                    ;
                }
            }
            let a = if c >= bpp { out[i - bpp] } else { 0 };
            let b = if r > 0 { out[i - stride] } else { 0 };
            let cc = if r > 0 && c >= bpp { out[i - stride - bpp] } else { 0 };
            let x = data[row_start + 1 + c];
            let v = unfilter_byte(mode, x, a, b, cc);
            assert(v == recon_at(d, stride as int, bpp as int, i as int));
            out.push(v);
            c = c + 1;
        }
        assert(out@.len() == (r + 1) * stride) by (nonlinear_arith)
            requires
                out@.len() == r * stride + stride,
        ;
        assert(row_start + line == (r + 1) * line) by (nonlinear_arith)
            requires
                row_start == r * line,
        ;
        row_start = row_start + line;
        r = r + 1;
    }
    Ok(out)
}

/// Filtered byte for raw byte `i` under `mode`: the raw byte minus the
/// prediction from its raw neighbors, modulo 256.
pub open spec fn filter_at(raw: Seq<u8>, stride: int, bpp: int, mode: u8, i: int) -> u8 {
    let col = i % stride;
    let a = if col >= bpp && i >= bpp { raw[i - bpp] } else { 0 };
    let b = if i >= stride { raw[i - stride] } else { 0 };
    let c = if col >= bpp && i >= stride + bpp { raw[i - stride - bpp] } else { 0 };
    ((raw[i] - predict(mode, a, b, c) + 256) % 256) as u8
}

/// The scanline stream that filters the rows of `raw` with `modes`, one
/// mode byte in front of each row.
pub open spec fn filter_rows(raw: Seq<u8>, stride: int, bpp: int, modes: Seq<u8>) -> Seq<u8> {
    let line = stride + 1;
    Seq::new(
        (modes.len() * line) as nat,
        |k: int|
            if k % line == 0 {
                modes[k / line]
            } else {
                filter_at(raw, stride, bpp, modes[k / line], (k / line) * stride + k % line - 1)
            },
    )
}

proof fn lemma_filtered_index(raw: Seq<u8>, stride: int, bpp: int, modes: Seq<u8>, i: int)
    requires
        0 < bpp <= stride,
        raw.len() == modes.len() * stride,
        0 <= i < raw.len(),
    ensures
        0 <= i / stride < modes.len(),
        row_mode(filter_rows(raw, stride, bpp, modes), stride, i / stride) == modes[i / stride],
        filtered_at(filter_rows(raw, stride, bpp, modes), stride, i) == filter_at(
            raw,
            stride,
            bpp,
            modes[i / stride],
            i,
        ),
{
    let line = stride + 1;
    let row = i / stride;
    let col = i % stride;
    let h = modes.len() as int;
    assert(i == row * stride + col && 0 <= col < stride) by {
        vstd::arithmetic::div_mod::lemma_fundamental_div_mod(i, stride);
    }
    assert(0 <= row < h) by (nonlinear_arith)
        requires
            i == row * stride + col,
            0 <= col < stride,
            0 <= i < h * stride,
    ;
    assert((row + 1) * line <= h * line) by (nonlinear_arith)
        requires
            row < h,
            line > 0,
    ;
    assert(row * line + line == (row + 1) * line) by (nonlinear_arith);
    let k0 = row * line;
    let k = row * line + 1 + col;
    lemma_fundamental_div_mod_converse(k0, line, row, 0);
    lemma_fundamental_div_mod_converse(k, line, row, 1 + col);
}

proof fn lemma_recon_filtered(raw: Seq<u8>, stride: int, bpp: int, modes: Seq<u8>, i: int)
    requires
        0 < bpp <= stride,
        raw.len() == modes.len() * stride,
        forall|r: int| 0 <= r < modes.len() ==> modes[r] <= 4,
        0 <= i < raw.len(),
    ensures
        recon_at(filter_rows(raw, stride, bpp, modes), stride, bpp, i) == raw[i],
    decreases i,
{
    let col = i % stride;
    vstd::arithmetic::div_mod::lemma_fundamental_div_mod(i, stride);
    if col >= bpp && i >= bpp {
        lemma_recon_filtered(raw, stride, bpp, modes, i - bpp);
    }
    if i >= stride {
        lemma_recon_filtered(raw, stride, bpp, modes, i - stride);
    }
    if col >= bpp && i >= stride + bpp {
        lemma_recon_filtered(raw, stride, bpp, modes, i - stride - bpp);
    }
    lemma_filtered_index(raw, stride, bpp, modes, i);
}

/// Reconstruction inverts filtering: filtering the rows of any raster with
/// any known modes and reconstructing gives back the raster, byte for byte.
pub proof fn lemma_unfilter_inverts_filter(raw: Seq<u8>, stride: int, bpp: int, modes: Seq<u8>)
    requires
        0 < bpp <= stride,
        raw.len() == modes.len() * stride,
        forall|r: int| 0 <= r < modes.len() ==> modes[r] <= 4,
    ensures
        filter_rows(raw, stride, bpp, modes).len() == modes.len() * (stride + 1),
        modes_known(filter_rows(raw, stride, bpp, modes), stride, modes.len() as int),
        forall|i: int|
            0 <= i < raw.len() ==> recon_at(filter_rows(raw, stride, bpp, modes), stride, bpp, i)
                == raw[i],
{
    let data = filter_rows(raw, stride, bpp, modes);
    let line = stride + 1;
    assert forall|r: int| 0 <= r < modes.len() implies row_mode(data, stride, r) <= 4 by {
        assert(r * line + line <= modes.len() * line) by (nonlinear_arith)
            requires
                0 <= r < modes.len(),
                line > 0,
        ;
        assert(0 <= r * line) by (nonlinear_arith)
            requires
                0 <= r,
                line > 0,
        ;
        lemma_fundamental_div_mod_converse(r * line, line, r, 0);
    }
    assert forall|i: int| 0 <= i < raw.len() implies recon_at(data, stride, bpp, i) == raw[i] by {
        lemma_recon_filtered(raw, stride, bpp, modes, i);
    }
}

} // verus!
