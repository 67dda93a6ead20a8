use pngsixel::container::parse_container;
use pngsixel::decode::{decode_image, reconstruct_pixels};
use pngsixel::filter::{paeth_predictor, unfilter_scanlines};
use pngsixel::pipeline::{render, Policy};
use pngsixel::DecodeError;

const MAGIC: [u8; 8] = [137, 80, 78, 71, 13, 10, 26, 10];

fn adler32(data: &[u8]) -> u32 {
    let (mut a, mut b) = (1u32, 0u32);
    for &d in data {
        a = (a + d as u32) % 65521;
        b = (b + a) % 65521;
    }
    (b << 16) | a
}

/// A zlib stream holding `data` in one stored block.
fn zlib_stored(data: &[u8]) -> Vec<u8> {
    let mut z = vec![0x78, 0x01, 0x01];
    let len = data.len() as u16;
    z.extend_from_slice(&len.to_le_bytes());
    z.extend_from_slice(&(!len).to_le_bytes());
    z.extend_from_slice(data);
    z.extend_from_slice(&adler32(data).to_be_bytes());
    z
}

fn chunk(out: &mut Vec<u8>, tag: &[u8; 4], payload: &[u8]) {
    out.extend_from_slice(&(payload.len() as u32).to_be_bytes());
    out.extend_from_slice(tag);
    out.extend_from_slice(payload);
    out.extend_from_slice(&[0, 0, 0, 0]);
}

fn header(w: u32, h: u32, depth: u8, color: u8) -> Vec<u8> {
    let mut ihdr = Vec::new();
    ihdr.extend_from_slice(&w.to_be_bytes());
    ihdr.extend_from_slice(&h.to_be_bytes());
    ihdr.extend_from_slice(&[depth, color, 0, 0, 0]);
    ihdr
}

fn container(w: u32, h: u32, color: u8, zdata: &[u8]) -> Vec<u8> {
    let mut f = MAGIC.to_vec();
    chunk(&mut f, b"IHDR", &header(w, h, 8, color));
    chunk(&mut f, b"tEXt", b"comment");
    let mid = zdata.len() / 2;
    chunk(&mut f, b"IDAT", &zdata[..mid]);
    chunk(&mut f, b"IDAT", &zdata[mid..]);
    chunk(&mut f, b"IEND", &[]);
    f
}

fn paeth_reference(a: u8, b: u8, c: u8) -> u8 {
    let p = a as i32 + b as i32 - c as i32;
    let (da, db, dc) = ((p - a as i32).abs(), (p - b as i32).abs(), (p - c as i32).abs());
    if da <= db && da <= dc {
        a
    } else if db <= dc {
        b
    } else {
        c
    }
}

fn predict(mode: u8, a: u8, b: u8, c: u8) -> u8 {
    match mode {
        0 => 0,
        1 => a,
        2 => b,
        3 => ((a as u16 + b as u16) / 2) as u8,
        _ => paeth_reference(a, b, c),
    }
}

/// Filters the RGBA rows of `raw` with `mode`.
fn filter_rows(raw: &[u8], w: usize, h: usize, mode: u8) -> Vec<u8> {
    let stride = w * 4;
    let mut out = Vec::new();
    for y in 0..h {
        out.push(mode);
        for i in 0..stride {
            let at = |yy: usize, ii: usize| raw[yy * stride + ii];
            let a = if i >= 4 { at(y, i - 4) } else { 0 };
            let b = if y > 0 { at(y - 1, i) } else { 0 };
            let c = if y > 0 && i >= 4 { at(y - 1, i - 4) } else { 0 };
            out.push(at(y, i).wrapping_sub(predict(mode, a, b, c)));
        }
    }
    out
}

fn synthetic(w: usize, h: usize) -> Vec<u8> {
    (0..w * h * 4).map(|i| ((i * 37 + 11) % 251) as u8).collect()
}

#[test]
fn paeth_matches_nearest_candidate_everywhere() {
    for a in 0..=255u8 {
        for b in 0..=255u8 {
            for c in (0..=255u8).step_by(3) {
                assert_eq!(paeth_predictor(a, b, c), paeth_reference(a, b, c));
            }
        }
    }
    assert_eq!(paeth_predictor(10, 20, 15), 15);
    assert_eq!(paeth_predictor(0, 5, 5), 0);
    assert_eq!(paeth_predictor(100, 20, 10), 100);
    assert_eq!(paeth_predictor(10, 100, 20), 100);
    assert_eq!(paeth_predictor(50, 60, 200), 50);
    assert_eq!(paeth_predictor(200, 10, 20), 200);
    assert_eq!(paeth_predictor(7, 7, 7), 7);
}

#[test]
fn every_filter_mode_round_trips() {
    for size in 1..=4usize {
        let raw = synthetic(size, size);
        for mode in 0..=4u8 {
            let filtered = filter_rows(&raw, size, size, mode);
            let file = container(size as u32, size as u32, 6, &zlib_stored(&filtered));
            let img = decode_image(&file).expect("decodes");
            assert_eq!(img.header.width, size as u32);
            assert_eq!(img.header.height, size as u32);
            assert_eq!(img.pixels, raw, "size {} mode {}", size, mode);
        }
    }
}

#[test]
fn average_filter_uses_floor_of_mean() {
    // One RGBA row of two pixels, mode 3: second pixel predicts from the first.
    let data = vec![3, 10, 20, 30, 40, 1, 1, 1, 1];
    let out = unfilter_scanlines(&data, 8, 4, 1).unwrap();
    assert_eq!(out, vec![10, 20, 30, 40, 6, 11, 16, 21]);
}

#[test]
fn rgb_rows_gain_opaque_alpha() {
    let filtered = vec![0, 1, 2, 3, 4, 5, 6];
    let file = container(2, 1, 2, &zlib_stored(&filtered));
    let img = decode_image(&file).unwrap();
    assert_eq!(img.pixels, vec![1, 2, 3, 255, 4, 5, 6, 255]);
}

#[test]
fn compressed_payload_is_inflated() {
    // A 2x2 RGBA raster, mode 0 on both rows, deflated.
    let z = [120u8, 156, 99, 248, 207, 192, 240, 31, 12, 129, 52, 8, 48, 0, 0, 72, 201, 8, 248];
    let file = container(2, 2, 6, &z);
    let img = decode_image(&file).unwrap();
    assert_eq!(
        img.pixels,
        vec![255, 0, 0, 255, 0, 255, 0, 255, 0, 0, 255, 255, 255, 255, 255, 0]
    );
}

#[test]
fn corrupt_magic_is_format_error() {
    let mut file = container(1, 1, 6, &zlib_stored(&[0, 1, 2, 3, 4]));
    file[1] = b'Q';
    assert_eq!(decode_image(&file).err(), Some(DecodeError::FormatError));
    assert_eq!(render(&file, Some(80), None, Policy::Direct).err(), Some(DecodeError::FormatError));
}

#[test]
fn truncated_data_chunk_is_truncated_error() {
    let file = container(1, 1, 6, &zlib_stored(&[0, 1, 2, 3, 4]));
    let cut = &file[..file.len() - 20];
    assert_eq!(decode_image(&cut.to_vec()).err(), Some(DecodeError::TruncatedError));
    assert_eq!(
        render(&cut.to_vec(), None, None, Policy::Direct).err(),
        Some(DecodeError::TruncatedError)
    );
    assert_eq!(decode_image(&MAGIC[..5].to_vec()).err(), Some(DecodeError::TruncatedError));
}

#[test]
fn missing_header_chunk_is_structure_error() {
    let mut f = MAGIC.to_vec();
    chunk(&mut f, b"IDAT", &header(1, 1, 8, 6));
    chunk(&mut f, b"IEND", &[]);
    assert_eq!(parse_container(&f).err(), Some(DecodeError::StructureError));
}

#[test]
fn sixteen_bit_depth_is_unsupported() {
    let mut f = MAGIC.to_vec();
    chunk(&mut f, b"IHDR", &header(1, 1, 16, 6));
    chunk(&mut f, b"IEND", &[]);
    assert_eq!(parse_container(&f).err(), Some(DecodeError::UnsupportedError));
}

#[test]
fn zero_width_is_format_error() {
    let mut f = MAGIC.to_vec();
    chunk(&mut f, b"IHDR", &header(0, 1, 8, 6));
    chunk(&mut f, b"IEND", &[]);
    assert_eq!(parse_container(&f).err(), Some(DecodeError::FormatError));
}

#[test]
fn unknown_filter_mode_is_corrupt_data() {
    let file = container(1, 1, 6, &zlib_stored(&[7, 1, 2, 3, 4]));
    assert_eq!(decode_image(&file).err(), Some(DecodeError::CorruptDataError));
}

#[test]
fn short_scanlines_are_corrupt_data() {
    let file = container(2, 2, 6, &zlib_stored(&[0, 1, 2, 3, 4]));
    assert_eq!(decode_image(&file).err(), Some(DecodeError::CorruptDataError));
}

#[test]
fn broken_zlib_stream_is_corrupt_data() {
    let file = container(1, 1, 6, &[0x78, 0x9c, 0xff, 0xff, 0xff]);
    assert_eq!(decode_image(&file).err(), Some(DecodeError::CorruptDataError));
}

#[test]
fn payloads_of_all_data_chunks_are_joined() {
    let file = container(1, 1, 6, &[9, 8, 7, 6, 5]);
    let c = parse_container(&file).unwrap();
    assert_eq!(c.payload, vec![9, 8, 7, 6, 5]);
    assert_eq!(c.header.width, 1);
    assert_eq!(c.header.color_type, 6);
}

#[test]
fn reconstruct_pixels_reports_size_mismatch() {
    let file = container(1, 1, 6, &[1]);
    let c = parse_container(&file).unwrap();
    assert_eq!(
        reconstruct_pixels(&c.header, &vec![0, 1, 2]).err(),
        Some(DecodeError::CorruptDataError)
    );
    assert_eq!(reconstruct_pixels(&c.header, &vec![1, 1, 2, 3, 4]).unwrap(), vec![1, 2, 3, 4]);
}

#[test]
fn short_file_with_wrong_first_chunk_is_structure_error() {
    let mut f = MAGIC.to_vec();
    f.extend_from_slice(&[0, 0, 0, 13]);
    f.extend_from_slice(b"IDAT");
    assert_eq!(f.len(), 16);
    assert_eq!(decode_image(&f).err(), Some(DecodeError::StructureError));
    assert_eq!(parse_container(&f).err(), Some(DecodeError::StructureError));
}

#[test]
fn short_file_cut_inside_first_chunk() {
    let mut f = MAGIC.to_vec();
    f.extend_from_slice(&[0, 0, 0, 13, b'I', b'H']);
    assert_eq!(parse_container(&f).err(), Some(DecodeError::TruncatedError));
    f.extend_from_slice(&[b'D', b'R', 0, 0, 0, 1]);
    assert_eq!(parse_container(&f).err(), Some(DecodeError::TruncatedError));
}
