//! Nearest-neighbor resampling and the target-size policy.
use vstd::prelude::*;
use crate::parallel::par_map_indices;
use crate::container::append_range;
use vstd::arithmetic::div_mod::{lemma_fundamental_div_mod, lemma_fundamental_div_mod_converse};

verus! {

/// Assumed width in pixels of a character cell when the terminal does not say.
pub const DEFAULT_CELL_WIDTH: u32 = 8;

/// Size at which an image of `w` by `h` pixels is shown in a terminal of
/// `columns` character columns whose cells are `cell_width` pixels wide: the
/// width is capped to the terminal's pixel width, the height follows in
/// proportion, and the image is never enlarged.
pub open spec fn target_size(w: u32, h: u32, columns: Option<u16>, cell_width: Option<u32>) -> (
    u32,
    u32,
) {
    let cell = if cell_width is Some && cell_width->0 > 0 {
        cell_width->0 as int
    } else {
        DEFAULT_CELL_WIDTH as int
    };
    if columns is Some && columns->0 > 0 && w > columns->0 * cell {
        let budget = columns->0 * cell;
        (budget as u32, (h * budget / (w as int)) as u32)
    } else {
        (w, h)
    }
}

/// Index of the source pixel for output coordinate `x` (or `y`) when `old`
/// pixels map onto `new` ones.
pub open spec fn source_coord(x: int, old: int, new: int) -> int {
    x * old / new
}

/// Whether `out` is the `nw` by `nh` nearest-neighbor resampling of the
/// `ow` by `oh` RGBA buffer `px`.
pub open spec fn is_resampled(out: Seq<u8>, px: Seq<u8>, ow: int, oh: int, nw: int, nh: int) -> bool {
    &&& out.len() == nw * nh * 4
    &&& forall|y: int, x: int, ch: int|
        0 <= y < nh && 0 <= x < nw && 0 <= ch < 4 ==> #[trigger] out[(y * nw + x) * 4 + ch] == px[(
        source_coord(y, oh, nh) * ow + source_coord(x, ow, nw)) * 4 + ch]
}

/// Whether `row` is output row `y` of that resampling.
pub open spec fn is_resampled_row(row: Seq<u8>, px: Seq<u8>, ow: int, oh: int, nw: int, nh: int, y: int) -> bool {
    &&& row.len() == nw * 4
    &&& forall|x: int, ch: int|
        0 <= x < nw && 0 <= ch < 4 ==> #[trigger] row[x * 4 + ch] == px[(source_coord(y, oh, nh) * ow
            + source_coord(x, ow, nw)) * 4 + ch]
}

/// The size to show an image at, given what the terminal reports.
pub fn scaled_dimensions(w: u32, h: u32, columns: Option<u16>, cell_width: Option<u32>) -> (r: (
    u32,
    u32,
))
    ensures
        r == target_size(w, h, columns, cell_width),
        r.0 <= w && r.1 <= h,
        w > 0 ==> r.0 > 0,
{
    let cell: u64 = match cell_width {
        Some(c) if c > 0 => c as u64,
        _ => DEFAULT_CELL_WIDTH as u64,
    };
    match columns {
        Some(cols) if cols > 0 => {
            assert(cols * cell <= 65535 * 4294967295) by (nonlinear_arith)
                requires
                    cols <= 65535,
                    cell <= 4294967295,
            ;
            assert(cols * cell >= 1) by (nonlinear_arith)
                requires
                    cols >= 1,
                    cell >= 1,
            ;
            let budget = cols as u64 * cell;
            if (w as u64) > budget {
                assert(h * budget <= h * w <= 4294967295 * 4294967295) by (nonlinear_arith)
                    requires
                        budget < w,
                        w <= 4294967295,
                        h <= 4294967295,
                ;
                let nh = (h as u64 * budget) / w as u64;
                assert(nh <= h) by (nonlinear_arith)
                    requires
                        nh == h * budget / (w as int),
                        budget < w,
                ;
                (budget as u32, nh as u32)
            } else {
                (w, h)
            }
        },
        _ => (w, h),
    }
}

proof fn lemma_source_in_range(x: int, old: int, new: int)
    requires
        0 <= x < new,
        old > 0,
    ensures
        0 <= source_coord(x, old, new) < old,
{
    let q = x * old / new;
    lemma_fundamental_div_mod(x * old, new);
    assert(0 <= x * old) by (nonlinear_arith)
        requires
            0 <= x,
            old > 0,
    ;
    assert(0 <= q < old) by (nonlinear_arith)
        requires
            x * old == new * q + (x * old) % new,
            0 <= (x * old) % new < new,
            0 <= x * old,
            x < new,
            old > 0,
    ;
}

pub(crate) proof fn lemma_pixel_index(sy: int, sx: int, ow: int, oh: int, ch: int)
    requires
        0 <= sy < oh,
        0 <= sx < ow,
        0 <= ch < 4,
    ensures
        0 <= (sy * ow + sx) * 4 + ch < ow * oh * 4,
{
    assert(0 <= (sy * ow + sx) * 4 + ch < ow * oh * 4) by (nonlinear_arith)
        requires
            0 <= sy < oh,
            0 <= sx < ow,
            0 <= ch < 4,
    ;
}

/// Output row `y` of the `nw` by `nh` resampling of `px`.
fn scale_row(px: &Vec<u8>, ow: u32, oh: u32, nw: u32, nh: u32, y: usize) -> (row: Vec<u8>)
    requires
        px@.len() == ow * oh * 4,
        ow > 0,
        oh > 0,
        y < nh,
    ensures
        is_resampled_row(row@, px@, ow as int, oh as int, nw as int, nh as int, y as int),
{
    assert(y * oh <= 4294967295 * 4294967295) by (nonlinear_arith)
        requires
            y < nh <= 4294967295,
            oh <= 4294967295,
    ;
    let sy = ((y as u64 * oh as u64) / nh as u64) as usize;
    proof {
        lemma_source_in_range(y as int, oh as int, nh as int);
    }
    let n = px.len();
    let mut row: Vec<u8> = Vec::new();
    let mut x: u32 = 0;
    while x < nw
        invariant
            px@.len() == ow * oh * 4,
            n == px@.len(),
            ow > 0,
            oh > 0,
            sy == source_coord(y as int, oh as int, nh as int),
            0 <= sy < oh,
            x <= nw,
            row@.len() == x * 4,
            forall|xx: int, ch: int|
                0 <= xx < x && 0 <= ch < 4 ==> #[trigger] row@[xx * 4 + ch] == px@[(sy * ow
                    + source_coord(xx, ow as int, nw as int)) * 4 + ch],
        decreases nw - x,
    {
        assert(x * ow <= 4294967295 * 4294967295) by (nonlinear_arith)
            requires
                x < 4294967295,
                ow <= 4294967295,
        ;
        let sx = ((x as u64 * ow as u64) / nw as u64) as usize;
        proof {
            lemma_source_in_range(x as int, ow as int, nw as int);
            lemma_pixel_index(sy as int, sx as int, ow as int, oh as int, 3);
        }
        let idx = (sy * ow as usize + sx) * 4;
        let ghost before = row@;
        row.push(px[idx]);
        row.push(px[idx + 1]);
        row.push(px[idx + 2]);
        row.push(px[idx + 3]);
        assert forall|xx: int, ch: int| 0 <= xx < x + 1 && 0 <= ch < 4 implies #[trigger] row@[xx * 4
            + ch] == px@[(sy * ow + source_coord(xx, ow as int, nw as int)) * 4 + ch] by {
            if xx < x {
                assert(row@[xx * 4 + ch] == before[xx * 4 + ch]);
            }
        }
        x = x + 1;
    }
    row
}

/// Nearest-neighbor resampling of the `ow` by `oh` RGBA buffer `px` to `nw`
/// by `nh`, one parallel task per output row.
pub fn scale_pixels(px: &Vec<u8>, ow: u32, oh: u32, nw: u32, nh: u32) -> (r: Vec<u8>)
    requires
        px@.len() == ow * oh * 4,
        nw * nh * 4 <= usize::MAX,
        nw > 0 && nh > 0 ==> ow > 0 && oh > 0,
    ensures
        is_resampled(r@, px@, ow as int, oh as int, nw as int, nh as int),
{
    if nw == 0 || nh == 0 {
        let r: Vec<u8> = Vec::new();
        assert(nw * nh * 4 == 0) by (nonlinear_arith)
            requires
                nw == 0 || nh == 0,
        ;
        return r;
    }
    let row_of = |y: usize| -> (row: Vec<u8>)
        requires
            y < nh,
        ensures
            is_resampled_row(row@, px@, ow as int, oh as int, nw as int, nh as int, y as int),
        { scale_row(px, ow, oh, nw, nh, y) };
    let rows = par_map_indices(nh as usize, row_of);
    let mut out: Vec<u8> = Vec::new();
    let mut y: usize = 0;
    while y < nh as usize
        invariant
            rows@.len() == nh,
            forall|i: int|
                0 <= i < nh ==> is_resampled_row(
                    #[trigger] rows@[i]@,
                    px@,
                    ow as int,
                    oh as int,
                    nw as int,
                    nh as int,
                    i,
                ),
            nw * nh * 4 <= usize::MAX,
            y <= nh,
            out@.len() == y * nw * 4,
            forall|yy: int, x: int, ch: int|
                0 <= yy < y && 0 <= x < nw && 0 <= ch < 4 ==> #[trigger] out@[(yy * nw + x) * 4 + ch]
                    == px@[(source_coord(yy, oh as int, nh as int) * ow + source_coord(
                    x,
                    ow as int,
                    nw as int,
                )) * 4 + ch],
        decreases nh - y,
    {
        assert(is_resampled_row(rows@[y as int]@, px@, ow as int, oh as int, nw as int, nh as int, y as int));
        let ghost before = out@;
        let row = &rows[y];
        assert((y + 1) * nw * 4 <= nw * nh * 4) by (nonlinear_arith)
            requires
                y < nh,
        ;
        append_range(&mut out, row, 0, row.len());
        assert forall|yy: int, x: int, ch: int|
            0 <= yy < y + 1 && 0 <= x < nw && 0 <= ch < 4 implies #[trigger] out@[(yy * nw + x) * 4 + ch]
            == px@[(source_coord(yy, oh as int, nh as int) * ow + source_coord(x, ow as int, nw as int)) * 4
            + ch] by {
            assert((yy * nw + x) * 4 + ch == yy * nw * 4 + (x * 4 + ch)) by (nonlinear_arith);
            assert(0 <= x * 4 + ch < nw * 4);
            if yy < y {
                assert((yy * nw + x) * 4 + ch < y * nw * 4) by (nonlinear_arith)
                    requires
                        yy < y,
                        x < nw,
                        ch < 4,
                ;
                assert(out@[(yy * nw + x) * 4 + ch] == before[(yy * nw + x) * 4 + ch]);
            } else {
                assert(out@[(yy * nw + x) * 4 + ch] == row@[x * 4 + ch]);
            }
        }
        assert(out@.len() == (y + 1) * nw * 4) by (nonlinear_arith)
            requires
                out@.len() == y * nw * 4 + nw * 4,
        ;
        y = y + 1;
    }
    assert(out@.len() == nw * nh * 4) by (nonlinear_arith)
        requires
            out@.len() == y * nw * 4,
            y == nh,
    ;
    out
}

proof fn lemma_identity_is_resampled(px: Seq<u8>, w: int, h: int)
    requires
        w >= 0,
        h >= 0,
        px.len() == w * h * 4,
    ensures
        is_resampled(px, px, w, h, w, h),
{
    assert forall|c: int, n: int| 0 <= c < n implies source_coord(c, n, n) == c by {
        vstd::arithmetic::div_mod::lemma_div_multiples_vanish(c, n);
        assert(c * n == n * c) by (nonlinear_arith);
    }
}

/// Resampling to the size the buffer already has returns it unchanged:
/// a buffer that stands in the resampling relation to `px` at `px`'s own size
/// is `px` itself.
pub proof fn lemma_resample_same_size(out: Seq<u8>, px: Seq<u8>, w: int, h: int)
    requires
        w >= 0,
        h >= 0,
        px.len() == w * h * 4,
        is_resampled(out, px, w, h, w, h),
    ensures
        out == px,
{
    lemma_identity_is_resampled(px, w, h);
    assert forall|k: int| 0 <= k < px.len() implies out[k] == px[k] by {
        lemma_fundamental_div_mod(k, 4);
        let p = k / 4;
        let ch = k % 4;
        assert(w > 0) by (nonlinear_arith)
            requires
                px.len() == w * h * 4,
                px.len() > 0,
                h >= 0,
                w >= 0,
        ;
        lemma_fundamental_div_mod(p, w);
        let x = p % w;
        let y = p / w;
        assert(0 <= y < h) by (nonlinear_arith)
            requires
                p == w * y + x,
                0 <= x < w,
                0 <= k < w * h * 4,
                k == 4 * p + ch,
                0 <= ch < 4,
        ;
        assert(k == (y * w + x) * 4 + ch) by (nonlinear_arith)
            requires
                p == w * y + x,
                k == 4 * p + ch,
        ;
    }
    assert(out =~= px);
}

/// Resamples `px` from `ow` by `oh` to `nw` by `nh`; at the same size the
/// buffer is handed back as it is.
pub fn resample(px: Vec<u8>, ow: u32, oh: u32, nw: u32, nh: u32) -> (r: Vec<u8>)
    requires
        px@.len() == ow * oh * 4,
        nw * nh * 4 <= usize::MAX,
        nw > 0 && nh > 0 ==> ow > 0 && oh > 0,
    ensures
        is_resampled(r@, px@, ow as int, oh as int, nw as int, nh as int),
        nw == ow && nh == oh ==> r@ == px@,
{
    if nw == ow && nh == oh {
        proof {
            lemma_identity_is_resampled(px@, ow as int, oh as int);
        }
        px
    } else {
        scale_pixels(&px, ow, oh, nw, nh)
    }
}

} // verus!
