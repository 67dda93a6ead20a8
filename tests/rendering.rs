use pngsixel::dither::quantize_diffused;
use pngsixel::pipeline::{render, Policy};
use pngsixel::quantize::{level_of, palette_index, quantize_channel, quantize_direct, Palette};
use pngsixel::resample::{resample, scale_pixels, scaled_dimensions};
use pngsixel::sixel::{encode_band, encode_sixel, encode_sixel_sequential, push_decimal, push_rle};

const GOLDEN_2X2: &[u8] =
    b"\x1bPq#3;2;0;0;100#28;2;0;100;0#224;2;100;0;0#3A?$#28?@$#224@?$-\x1b\\";

fn two_by_two() -> Vec<u8> {
    vec![255, 0, 0, 255, 0, 255, 0, 255, 0, 0, 255, 255, 255, 255, 255, 0]
}

fn gradient(w: usize, h: usize) -> Vec<u8> {
    let mut px = Vec::new();
    for y in 0..h {
        for x in 0..w {
            px.extend_from_slice(&[
                (x * 255 / w.max(1)) as u8,
                (y * 255 / h.max(1)) as u8,
                ((x * 7 + y * 13) % 256) as u8,
                if (x + y) % 5 == 0 { 0 } else { 255 },
            ]);
        }
    }
    px
}

#[test]
fn golden_two_by_two_stream() {
    let px = quantize_direct(&two_by_two());
    let out = encode_sixel(&px, 2, 2, &Palette::new());
    assert_eq!(out, GOLDEN_2X2.to_vec());
}

#[test]
fn golden_stream_through_whole_pipeline() {
    // The same raster stored deflated in a container.
    let z = [120u8, 156, 99, 248, 207, 192, 240, 31, 12, 129, 52, 8, 48, 0, 0, 72, 201, 8, 248];
    let mut f = vec![137, 80, 78, 71, 13, 10, 26, 10];
    f.extend_from_slice(&[0, 0, 0, 13]);
    f.extend_from_slice(b"IHDR");
    f.extend_from_slice(&[0, 0, 0, 2, 0, 0, 0, 2, 8, 6, 0, 0, 0, 0, 0, 0, 0]);
    f.extend_from_slice(&(z.len() as u32).to_be_bytes());
    f.extend_from_slice(b"IDAT");
    f.extend_from_slice(&z);
    f.extend_from_slice(&[0, 0, 0, 0, 0, 0, 0, 0]);
    f.extend_from_slice(b"IEND");
    f.extend_from_slice(&[0, 0, 0, 0]);
    let out = render(&f, Some(80), None, Policy::Direct).unwrap();
    assert_eq!(out, GOLDEN_2X2.to_vec());
    let again = render(&f, Some(80), None, Policy::Direct).unwrap();
    assert_eq!(out, again);
}

#[test]
fn parallel_and_sequential_streams_agree() {
    for &(w, h) in &[(1usize, 1usize), (7, 6), (13, 20), (40, 31)] {
        let px = gradient(w, h);
        let palette = Palette::new();
        let a = encode_sixel(&px, w as u32, h as u32, &palette);
        let b = encode_sixel_sequential(&px, w as u32, h as u32, &palette);
        assert_eq!(a, b);
        assert!(a.starts_with(b"\x1bPq"));
        assert!(a.ends_with(b"\x1b\\"));
        assert_eq!(a.iter().filter(|&&c| c == b'-').count(), (h + 5) / 6);
    }
}

#[test]
fn long_run_is_one_repeat_directive() {
    let mut out = Vec::new();
    push_rle(&mut out, &vec![5u8; 10]);
    assert_eq!(out, b"!10D".to_vec());
    let mut out = Vec::new();
    push_rle(&mut out, &vec![0u8; 4]);
    assert_eq!(out, b"!4?".to_vec());
}

#[test]
fn short_runs_are_literal() {
    for n in 0..=3usize {
        let mut out = Vec::new();
        push_rle(&mut out, &vec![1u8; n]);
        assert_eq!(out, vec![b'@'; n]);
    }
    let mut out = Vec::new();
    push_rle(&mut out, &vec![1, 1, 2, 2, 2, 2, 2, 3]);
    assert_eq!(out, b"@@!5AB".to_vec());
}

#[test]
fn repeat_directive_decodes_to_the_row() {
    let row = vec![17u8; 25];
    let mut out = Vec::new();
    push_rle(&mut out, &row);
    assert_eq!(out[0], b'!');
    let digits: String = out[1..out.len() - 1].iter().map(|&c| c as char).collect();
    let count: usize = digits.parse().unwrap();
    let value = out[out.len() - 1] - 63;
    assert_eq!(vec![value; count], row);
}

#[test]
fn decimal_digits() {
    let mut out = Vec::new();
    push_decimal(&mut out, 0);
    push_decimal(&mut out, 1234);
    assert_eq!(out, b"01234".to_vec());
}

#[test]
fn band_of_single_opaque_red_pixel() {
    let out = encode_band(&vec![255, 0, 0, 255], 1, 1, 0);
    assert_eq!(out, b"#224@$-".to_vec());
    let none = encode_band(&vec![255, 0, 0, 128], 1, 1, 0);
    assert_eq!(none, b"-".to_vec());
}

#[test]
fn direct_policy_lands_on_levels() {
    let red_levels: Vec<u8> = (0..8).map(|l| ((l * 255) as f64 / 7.0).round() as u8).collect();
    for v in 0..=255u8 {
        let r = quantize_channel(v, 8);
        assert!(red_levels.contains(&r), "{} -> {}", v, r);
        let b = quantize_channel(v, 4);
        assert!([0, 85, 170, 255].contains(&b), "{} -> {}", v, b);
        let exact = ((v as f64) * 7.0 / 255.0).round() as usize;
        assert_eq!(r, red_levels[exact]);
    }
    assert_eq!(quantize_channel(42, 4), 0);
    assert_eq!(quantize_channel(43, 4), 85);
    assert_eq!(quantize_direct(&vec![200, 100, 50, 7]), vec![182, 109, 85, 7]);
}

#[test]
fn palette_entries() {
    let p = Palette::new();
    assert_eq!(p.colors.len(), 256);
    assert_eq!(p.colors[0], (0, 0, 0));
    assert_eq!(p.colors[255], (100, 100, 100));
    assert_eq!(p.colors[224], (100, 0, 0));
    assert_eq!(p.colors[1], (0, 0, 33));
    assert_eq!(p.colors[32], (14, 0, 0));
    assert_eq!(palette_index(255, 255, 255), 255);
    assert_eq!(palette_index(0, 0, 0), 0);
    assert_eq!(palette_index(0, 0, 255), 3);
}

#[test]
fn diffusion_keeps_mean_of_flat_gray() {
    let (w, h) = (32usize, 32usize);
    let px: Vec<u8> = (0..w * h).flat_map(|_| [100u8, 100, 100, 200]).collect();
    let out = quantize_diffused(&px, w as u32);
    assert_eq!(out.len(), px.len());
    for ch in 0..3 {
        let sum_in: i64 = px.iter().skip(ch).step_by(4).map(|&v| v as i64).sum();
        let sum_out: i64 = out.iter().skip(ch).step_by(4).map(|&v| v as i64).sum();
        let n = (w * h) as i64;
        assert!((sum_in - sum_out).abs() <= 43 * (w as i64 + h as i64) * 2, "channel {}", ch);
        assert!(((sum_in - sum_out) as f64 / n as f64).abs() < 2.0, "channel {}", ch);
    }
    assert!(out.iter().skip(3).step_by(4).all(|&a| a == 200));
    // A mid gray among four blue levels must mix 85 and 170.
    let blues: Vec<u8> = out.iter().skip(2).step_by(4).copied().collect();
    assert!(blues.contains(&85) && blues.contains(&170));
}

#[test]
fn diffusion_of_exact_levels_is_direct() {
    let px = vec![0, 0, 0, 255, 255, 255, 255, 255, 73, 109, 170, 9];
    assert_eq!(quantize_diffused(&px, 3), quantize_direct(&px));
}

#[test]
fn resampling_to_same_size_is_identity() {
    let px = gradient(5, 3);
    assert_eq!(scale_pixels(&px, 5, 3, 5, 3), px);
    assert_eq!(resample(px.clone(), 5, 3, 5, 3), px);
}

#[test]
fn resampling_picks_nearest_source() {
    // 4x1 to 2x1 keeps pixels 0 and 2.
    let px: Vec<u8> = (0..16).collect();
    assert_eq!(scale_pixels(&px, 4, 1, 2, 1), vec![0, 1, 2, 3, 8, 9, 10, 11]);
    // 1x2 to 1x1 keeps the top pixel.
    assert_eq!(resample(vec![1, 2, 3, 4, 5, 6, 7, 8], 1, 2, 1, 1), vec![1, 2, 3, 4]);
}

#[test]
fn target_size_policy() {
    assert_eq!(scaled_dimensions(1000, 500, Some(80), None), (640, 320));
    assert_eq!(scaled_dimensions(1000, 500, Some(80), Some(0)), (640, 320));
    assert_eq!(scaled_dimensions(1000, 500, Some(80), Some(10)), (800, 400));
    assert_eq!(scaled_dimensions(100, 50, Some(80), Some(10)), (100, 50));
    assert_eq!(scaled_dimensions(1000, 500, None, Some(10)), (1000, 500));
    assert_eq!(scaled_dimensions(1000, 3, Some(10), None), (80, 0));
}

fn share(r: i64, k: i64) -> i64 {
    if r >= 0 {
        k * r / 16
    } else {
        -((k * -r) / 16)
    }
}

#[test]
fn diffusion_bias_is_exactly_the_edge_loss() {
    let (w, h) = (9usize, 7usize);
    let px = gradient(w, h);
    let out = quantize_diffused(&px, w as u32);
    for ch in 0..3 {
        // Residual of each pixel: adjusted input less chosen output.
        let mut acc = vec![0i64; w * h];
        let mut lost = 0i64;
        for p in 0..w * h {
            let (x, y) = (p % w, p / w);
            let v = px[p * 4 + ch] as i64 + acc[p];
            let n: i64 = if ch == 2 { 4 } else { 8 };
            let level = ((2 * v * (n - 1) + 255).div_euclid(510)).clamp(0, n - 1);
            let chosen = (510 * level + (n - 1)) / (2 * (n - 1));
            assert_eq!(out[p * 4 + ch] as i64, chosen, "pixel {} channel {}", p, ch);
            let r = v - chosen;
            let (s3, s5, s1) = (share(r, 3), share(r, 5), share(r, 1));
            let s7 = r - s3 - s5 - s1;
            let mut give = |dx: i64, dy: usize, s: i64| {
                let nx = x as i64 + dx;
                if nx >= 0 && (nx as usize) < w && y + dy < h {
                    acc[(y + dy) * w + nx as usize] += s;
                } else {
                    lost += s;
                }
            };
            give(1, 0, s7);
            give(-1, 1, s3);
            give(0, 1, s5);
            give(1, 1, s1);
        }
        let sum_in: i64 = (0..w * h).map(|p| px[p * 4 + ch] as i64).sum();
        let sum_out: i64 = (0..w * h).map(|p| out[p * 4 + ch] as i64).sum();
        assert_eq!(sum_in - sum_out, lost, "channel {}", ch);
        assert!(acc.iter().all(|e| e.abs() <= 42));
    }
}

#[test]
fn level_of_clamps_over_the_whole_range() {
    assert_eq!(level_of(i32::MIN, 8), 0);
    assert_eq!(level_of(i32::MAX, 8), 7);
    assert_eq!(level_of(-1, 4), 0);
    assert_eq!(level_of(300, 4), 3);
    assert_eq!(level_of(128, 4), 2);
}
