//! From container bytes to an RGBA pixel buffer.
use vstd::prelude::*;
use crate::DecodeError;
use crate::container::{parse_container, parse_spec, RasterHeader};
use crate::filter::{modes_known, recon_at, unfilter_scanlines};

verus! {

/// What inflating a zlib stream gives: the bytes, or `None` for a corrupt stream.
pub uninterp spec fn zlib_inflate(data: Seq<u8>) -> Option<Seq<u8>>;

/// Relies on miniz_oxide::inflate::decompress_to_vec_zlib: the decompressed
/// bytes of a zlib-wrapped deflate stream, or an error for a corrupt one; the
/// outcome depends on the input bytes alone.
#[verifier::external_body]
fn inflate_zlib(data: &Vec<u8>) -> (r: Option<Vec<u8>>)
    ensures
        match r {
            Some(v) => zlib_inflate(data@) == Some(v@),
            None => zlib_inflate(data@) is None,
        },
{
    miniz_oxide::inflate::decompress_to_vec_zlib(data.as_slice()).ok()
}

/// A decoded raster: its header and `width * height` RGBA pixels, row-major.
pub struct Image {
    pub header: RasterHeader,
    pub pixels: Vec<u8>,
}

/// Bytes per pixel of a supported color type: 4 for RGBA, 3 for RGB.
pub open spec fn channels(h: RasterHeader) -> int {
    if h.color_type == 6 { 4 } else { 3 }
}

/// Pixels of `ch` bytes widened to RGBA; a missing alpha is 255.
pub open spec fn rgba_of(raw: Seq<u8>, ch: int) -> Seq<u8> {
    if ch == 4 {
        raw
    } else {
        Seq::new(
            (raw.len() / 3 * 4) as nat,
            |k: int| if k % 4 == 3 { 255u8 } else { raw[(k / 4) * 3 + k % 4] },
        )
    }
}

/// The RGBA pixels that the decompressed scanlines `d` give under header `h`.
pub open spec fn pixels_spec(h: RasterHeader, d: Seq<u8>) -> Result<Seq<u8>, DecodeError> {
    let ch = channels(h);
    let stride = h.width * ch;
    if h.width * h.height * 4 > usize::MAX {
        Err(DecodeError::UnsupportedError)
    } else if d.len() != h.height * (stride + 1) || !modes_known(d, stride, h.height as int) {
        Err(DecodeError::CorruptDataError)
    } else {
        Ok(rgba_of(Seq::new((h.height * stride) as nat, |i: int| recon_at(d, stride, ch, i)), ch))
    }
}

/// What decoding the container bytes `b` gives.
pub open spec fn decode_spec(b: Seq<u8>) -> Result<(RasterHeader, Seq<u8>), DecodeError> {
    match parse_spec(b) {
        Err(e) => Err(e),
        Ok((h, payload)) => match zlib_inflate(payload) {
            None => Err(DecodeError::CorruptDataError),
            Some(d) => match pixels_spec(h, d) {
                Err(e) => Err(e),
                Ok(px) => Ok((h, px)),
            },
        },
    }
}

/// Widens RGB pixels to RGBA with an opaque alpha.
fn rgb_to_rgba(raw: &Vec<u8>) -> (r: Vec<u8>)
    requires
        raw@.len() % 3 == 0,
        raw@.len() / 3 * 4 <= usize::MAX,
    ensures
        r@ == rgba_of(raw@, 3),
{
    let n = raw.len();
    let mut out: Vec<u8> = Vec::new();
    let mut i: usize = 0;
    while i < n
        invariant
            n == raw@.len(),
            n % 3 == 0,
            i % 3 == 0,
            i <= n,
            out@.len() == i / 3 * 4,
            forall|k: int|
                0 <= k < out@.len() ==> out@[k] == (if k % 4 == 3 {
                    255u8
                } else {
                    raw@[(k / 4) * 3 + k % 4]
                }),
        decreases n - i,
    {
        out.push(raw[i]);
        out.push(raw[i + 1]);
        out.push(raw[i + 2]);
        out.push(255);
        i = i + 3;
    }
    assert(out@ =~= rgba_of(raw@, 3));
    out
}

/// Reverses the scanline filters of the decompressed bytes `d` and returns
/// RGBA pixels.
pub fn reconstruct_pixels(header: &RasterHeader, d: &Vec<u8>) -> (r: Result<Vec<u8>, DecodeError>)
    requires
        header.width > 0,
        header.height > 0,
        header.color_type == 2 || header.color_type == 6,
    ensures
        match r {
            Ok(px) => pixels_spec(*header, d@) == Ok::<Seq<u8>, DecodeError>(px@),
            Err(e) => pixels_spec(*header, d@) == Err::<Seq<u8>, DecodeError>(e),
        },
{
    let ch: usize = if header.color_type == 6 { 4 } else { 3 };
    let w = header.width as usize;
    let h = header.height as usize;
    let n = d.len();
    let size = match w.checked_mul(h) {
        Some(p) => p.checked_mul(4),
        None => None,
    };
    if size.is_none() {
        return Err(DecodeError::UnsupportedError);
    }
    assert(w * ch <= w * h * 4) by (nonlinear_arith)
        requires
            h >= 1,
            ch <= 4,
    ;
    let stride = w * ch;
    if stride == usize::MAX {
        assert(h * (stride + 1) > n) by (nonlinear_arith)
            requires
                h >= 1,
                stride == usize::MAX,
                n <= usize::MAX,
        ;
        return Err(DecodeError::CorruptDataError);
    }
    let raw = match unfilter_scanlines(d, stride, ch, header.height as usize) {
        Ok(raw) => raw,
        Err(e) => {
            return Err(e);
        },
    };
    let ghost rs = Seq::new(
        (header.height * stride) as nat,
        |i: int| recon_at(d@, stride as int, ch as int, i),
    );
    assert(raw@ =~= rs);
    if ch == 4 {
        Ok(raw)
    } else {
        assert(raw@.len() == (w * h) * 3 && raw@.len() / 3 * 4 == w * h * 4) by (nonlinear_arith)
            requires
                raw@.len() == h * stride,
                stride == w * 3,
        ;
        Ok(rgb_to_rgba(&raw))
    }
}

/// A decoded raster has a nonzero size, and four bytes for each pixel.
pub proof fn lemma_decoded_shape(b: Seq<u8>)
    requires
        decode_spec(b) is Ok,
    ensures
        ({
            let (h, px) = decode_spec(b)->Ok_0;
            &&& h.width > 0
            &&& h.height > 0
            &&& h.width * h.height * 4 <= usize::MAX
            &&& px.len() == h.width * h.height * 4
        }),
{
    let (h, payload) = parse_spec(b)->Ok_0;
    let d = zlib_inflate(payload)->Some_0;
    let ch = channels(h);
    let stride = h.width * ch;
    let (w, hh) = (h.width as int, h.height as int);
    if ch == 4 {
        assert(hh * stride == w * hh * 4) by (nonlinear_arith)
            requires
                stride == w * 4,
        ;
    } else {
        assert(hh * stride == (w * hh) * 3) by (nonlinear_arith)
            requires
                stride == w * 3,
        ;
        assert((w * hh) * 3 / 3 == w * hh);
    }
}

/// Decodes container bytes into an RGBA image.
pub fn decode_image(b: &Vec<u8>) -> (r: Result<Image, DecodeError>)
    ensures
        match r {
            Ok(img) => decode_spec(b@) == Ok::<(RasterHeader, Seq<u8>), DecodeError>(
                (img.header, img.pixels@),
            ),
            Err(e) => decode_spec(b@) == Err::<(RasterHeader, Seq<u8>), DecodeError>(e),
        },
{
    let c = match parse_container(b) {
        Ok(c) => c,
        Err(e) => {
            return Err(e);
        },
    };
    let d = match inflate_zlib(&c.payload) {
        Some(d) => d,
        None => {
            return Err(DecodeError::CorruptDataError);
        },
    };
    match reconstruct_pixels(&c.header, &d) {
        Ok(pixels) => Ok(Image { header: c.header, pixels }),
        Err(e) => Err(e),
    }
}

} // verus!
