//! The whole pipeline: decode, fit to the terminal, reduce, encode.
use vstd::prelude::*;
use crate::DecodeError;
use crate::container::RasterHeader;
use crate::decode::{decode_image, decode_spec};
use crate::dither::{diffused_byte, quantize_diffused};
use crate::quantize::{direct_byte, quantize_direct};
use crate::resample::{is_resampled, resample, scaled_dimensions, target_size};
use crate::sixel::{encode_sixel, sixel_stream};

verus! {

/// How true color is reduced to the palette.
#[derive(Debug, Clone, Copy, PartialEq, Eq, Structural)]
pub enum Policy {
    /// Each channel to its nearest level, no error feedback.
    Direct,
    /// Floyd-Steinberg error diffusion.
    Diffusion,
}

/// The reduction of the `w`-wide RGBA buffer `px` under `policy`.
pub open spec fn reduced(px: Seq<u8>, w: int, policy: Policy) -> Seq<u8> {
    Seq::new(
        px.len(),
        |k: int|
            (if policy == Policy::Direct {
                direct_byte(px, k)
            } else {
                diffused_byte(px, w, k)
            }) as u8,
    )
}

/// Whether `s` is the stream for the decoded raster `(h, px)` shown in a
/// terminal of `columns` columns with cells `cell_width` pixels wide.
pub open spec fn rendered(
    h: RasterHeader,
    px: Seq<u8>,
    columns: Option<u16>,
    cell_width: Option<u32>,
    policy: Policy,
    s: Seq<u8>,
) -> bool {
    let (nw, nh) = target_size(h.width, h.height, columns, cell_width);
    exists|scaled: Seq<u8>|
        is_resampled(scaled, px, h.width as int, h.height as int, nw as int, nh as int) && s
            == sixel_stream(reduced(scaled, nw as int, policy), nw as int, nh as int)
}

/// Decodes container bytes and renders them as a sixel stream fitted to the
/// terminal. Fails as decoding fails, or with `UnsupportedError` when the
/// fitted width is too large to lay out 256 color layers of it in memory.
pub fn render(
    bytes: &Vec<u8>,
    columns: Option<u16>,
    cell_width: Option<u32>,
    policy: Policy,
) -> (r: Result<Vec<u8>, DecodeError>)
    ensures
        decode_spec(bytes@) matches Err(e) ==> r == Err::<Vec<u8>, DecodeError>(e),
        decode_spec(bytes@) matches Ok((h, px)) ==> match r {
            Ok(s) => rendered(h, px, columns, cell_width, policy, s@),
            Err(e) => e == DecodeError::UnsupportedError && 256 * target_size(
                h.width,
                h.height,
                columns,
                cell_width,
            ).0 > usize::MAX,
        },
{
    let img = match decode_image(bytes) {
        Ok(img) => img,
        Err(e) => {
            return Err(e);
        },
    };
    proof {
        crate::decode::lemma_decoded_shape(bytes@);
    }
    let w = img.header.width;
    let h = img.header.height;
    let (nw, nh) = scaled_dimensions(w, h, columns, cell_width);
    if nw as usize > usize::MAX / 256 {
        return Err(DecodeError::UnsupportedError);
    }
    assert(nw * nh * 4 <= w * h * 4) by (nonlinear_arith)
        requires
            nw <= w,
            nh <= h,
    ;
    let scaled = resample(img.pixels, w, h, nw, nh);
    let reduced_px = match policy {
        Policy::Direct => quantize_direct(&scaled),
        Policy::Diffusion => quantize_diffused(&scaled, nw),
    };
    let ghost sc = scaled@;
    assert(reduced_px@ =~= reduced(sc, nw as int, policy));
    let s = encode_sixel(&reduced_px, nw, nh, &crate::quantize::Palette::new());
    Ok(s)
}

} // verus!
