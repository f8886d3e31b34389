use jpeg_compress::chroma::{downsample_plane, half_dim, upsample_plane};
use jpeg_compress::color::{rgb_to_ycbcr, ycbcr_to_rgb};
use jpeg_compress::dct::{code_block, dct2d, idct2d, quantize_block};
use jpeg_compress::fixed::div_round;
use jpeg_compress::plane::process_plane;
use jpeg_compress::quant::{build_quant_table, clamp_factor};
use jpeg_compress::{compress_jpeg, CompressError, RasterImage, LEVEL_ONE};

fn image(width: u32, height: u32, pixel: [u8; 4]) -> RasterImage {
    let mut pixels = Vec::new();
    for _ in 0..(width * height) {
        pixels.extend_from_slice(&pixel);
    }
    RasterImage { width, height, pixels }
}

fn gradient(width: u32, height: u32) -> RasterImage {
    let mut pixels = Vec::new();
    for y in 0..height {
        for x in 0..width {
            pixels.push((x * 23 % 256) as u8);
            pixels.push((y * 31 % 256) as u8);
            pixels.push(((x + y) * 17 % 256) as u8);
            pixels.push(((x * y) % 256) as u8);
        }
    }
    RasterImage { width, height, pixels }
}

fn checkerboard_luma() -> Vec<Vec<i64>> {
    let mut plane = Vec::new();
    for y in 0..8 {
        let mut row = Vec::new();
        for x in 0..8 {
            let v: u8 = if (x + y) % 2 == 0 { 255 } else { 0 };
            row.push(rgb_to_ycbcr(v, v, v).0);
        }
        plane.push(row);
    }
    plane
}

fn variance(plane: &Vec<Vec<i64>>) -> f64 {
    let values: Vec<f64> = plane.iter().flatten().map(|v| *v as f64).collect();
    let mean = values.iter().sum::<f64>() / values.len() as f64;
    values.iter().map(|v| (v - mean) * (v - mean)).sum::<f64>() / values.len() as f64
}

#[test]
fn identity_at_zero_factor() {
    let input = gradient(13, 7);
    let out = compress_jpeg(&input, 0).unwrap();
    assert_eq!(out.width, 13);
    assert_eq!(out.height, 7);
    assert_eq!(out.pixels, input.pixels);
}

#[test]
fn negative_factor_is_clamped_to_identity() {
    let input = gradient(5, 9);
    let out = compress_jpeg(&input, -250_000).unwrap();
    assert_eq!(out.pixels, input.pixels);
}

#[test]
fn dimensions_preserved_at_every_factor() {
    for level in [1, 250_000, 500_000, 1_000_000, 3_000_000] {
        let input = gradient(17, 11);
        let out = compress_jpeg(&input, level).unwrap();
        assert_eq!(out.width, 17);
        assert_eq!(out.height, 11);
        assert_eq!(out.pixels.len(), 17 * 11 * 4);
    }
}

#[test]
fn alpha_forced_opaque() {
    let input = gradient(9, 9);
    assert!(input.pixels.chunks(4).any(|p| p[3] != 255));
    let out = compress_jpeg(&input, 400_000).unwrap();
    assert!(out.pixels.chunks(4).all(|p| p[3] == 255));
}

#[test]
fn zero_width_rejected() {
    let input = RasterImage { width: 0, height: 4, pixels: Vec::new() };
    assert_eq!(compress_jpeg(&input, 500_000).unwrap_err(), CompressError::InvalidDimensions);
    assert_eq!(compress_jpeg(&input, 0).unwrap_err(), CompressError::InvalidDimensions);
}

#[test]
fn zero_height_rejected() {
    let input = RasterImage { width: 4, height: 0, pixels: Vec::new() };
    assert_eq!(compress_jpeg(&input, 1_000_000).unwrap_err(), CompressError::InvalidDimensions);
}

#[test]
fn short_buffer_rejected() {
    let mut input = image(3, 2, [1, 2, 3, 4]);
    input.pixels.pop();
    assert_eq!(input.pixels.len(), 3 * 2 * 4 - 1);
    for level in [0, 500_000, 1_000_000] {
        assert_eq!(compress_jpeg(&input, level).unwrap_err(), CompressError::BufferSizeMismatch);
    }
}

#[test]
fn long_buffer_rejected() {
    let mut input = image(2, 2, [1, 2, 3, 4]);
    input.pixels.push(0);
    assert_eq!(compress_jpeg(&input, 700_000).unwrap_err(), CompressError::BufferSizeMismatch);
}

#[test]
fn flat_field_stays_gray_at_small_factor() {
    let out = compress_jpeg(&image(8, 8, [128, 128, 128, 255]), 1).unwrap();
    assert!(out.pixels.chunks(4).all(|p| p == [128, 128, 128, 255]));
}

#[test]
fn flat_field_stays_gray_at_three_quarters() {
    let out = compress_jpeg(&image(16, 16, [128, 128, 128, 255]), 750_000).unwrap();
    assert!(out.pixels.chunks(4).all(|p| p == [128, 128, 128, 255]));
}

#[test]
fn flat_field_at_full_factor_exact() {
    let out = compress_jpeg(&image(8, 8, [128, 128, 128, 255]), LEVEL_ONE).unwrap();
    assert!(out.pixels.chunks(4).all(|p| p == [123, 128, 122, 255]));
}

#[test]
fn flat_field_at_quarter_factor_exact() {
    let out = compress_jpeg(&image(8, 8, [128, 128, 128, 255]), 250_000).unwrap();
    assert!(out.pixels.chunks(4).all(|p| p == [138, 128, 139, 255]));
}

#[test]
fn checkerboard_variance_flattens() {
    let plane = checkerboard_luma();
    let original = variance(&plane);
    assert_eq!(original, 1_065_369_600.0);
    let light = variance(&process_plane(&plane, 8, 8, &build_quant_table(50_000)));
    let strong = variance(&process_plane(&plane, 8, 8, &build_quant_table(LEVEL_ONE)));
    assert!(light <= original);
    assert!(strong <= light);
    assert_eq!(strong, 0.0);
}

#[test]
fn checkerboard_variance_exact_values() {
    let plane = checkerboard_luma();
    let at_300k = variance(&process_plane(&plane, 8, 8, &build_quant_table(300_000)));
    let at_800k = variance(&process_plane(&plane, 8, 8, &build_quant_table(800_000)));
    assert!((at_300k - 491_809_586.772_460_94).abs() < 1e-3);
    assert_eq!(at_800k, 0.0);
}

#[test]
fn edges_of_ten_by_ten_image() {
    let input = gradient(10, 10);
    let out = compress_jpeg(&input, 600_000).unwrap();
    assert_eq!(out.pixels.len(), 10 * 10 * 4);
    let flat = compress_jpeg(&image(10, 10, [128, 128, 128, 255]), 750_000).unwrap();
    assert!(flat.pixels.chunks(4).all(|p| p == [128, 128, 128, 255]));
}

#[test]
fn odd_sizes_keep_length() {
    for (w, h) in [(1, 1), (1, 9), (9, 1), (15, 3), (8, 17)] {
        let out = compress_jpeg(&gradient(w, h), 900_000).unwrap();
        assert_eq!(out.pixels.len(), (w * h * 4) as usize);
    }
}

#[test]
fn resample_two_by_two_replicates_top_left() {
    let plane = vec![vec![100, 200], vec![300, 400]];
    let small = downsample_plane(&plane, 2, 2);
    assert_eq!(small, vec![vec![100]]);
    let back = upsample_plane(&small, 2, 2, 1, 1);
    assert_eq!(back, vec![vec![100, 100], vec![100, 100]]);
}

#[test]
fn resample_three_by_three_clamps_edges() {
    let plane = vec![vec![1, 2, 3], vec![4, 5, 6], vec![7, 8, 9]];
    let small = downsample_plane(&plane, 3, 3);
    assert_eq!(small, vec![vec![1, 3], vec![7, 9]]);
    let back = upsample_plane(&small, 3, 3, 2, 2);
    assert_eq!(back, vec![vec![1, 1, 3], vec![1, 1, 3], vec![7, 7, 9]]);
    assert_eq!(half_dim(3), 2);
    assert_eq!(half_dim(4), 2);
    assert_eq!(half_dim(1), 1);
}

#[test]
fn quant_table_entries() {
    let t0 = build_quant_table(0);
    assert_eq!(&t0[..4], &[16, 11, 10, 16]);
    assert_eq!(t0[63], 99);
    let t1 = build_quant_table(LEVEL_ONE);
    assert_eq!(&t1[..4], &[336, 231, 210, 336]);
    let half = build_quant_table(500_000);
    assert_eq!(&half[..4], &[176, 121, 110, 176]);
    assert_eq!(build_quant_table(-5), t0);
    assert_eq!(build_quant_table(2_000_000), t1);
}

#[test]
fn factor_clamping() {
    assert_eq!(clamp_factor(-1), 0);
    assert_eq!(clamp_factor(0), 0);
    assert_eq!(clamp_factor(123_456), 123_456);
    assert_eq!(clamp_factor(LEVEL_ONE + 1), LEVEL_ONE);
}

#[test]
fn constant_block_has_only_dc() {
    let block = vec![32768i64; 64];
    let d = dct2d(&block);
    assert_eq!(d[0], 262_088);
    assert!(d[1..].iter().all(|v| *v == 0));
    let back = idct2d(&d);
    assert!(back.iter().all(|v| *v == 32754));
}

#[test]
fn quantize_rounds_to_steps() {
    let mut d = vec![0i64; 64];
    d[0] = 262_088;
    d[1] = -1000;
    let table = build_quant_table(LEVEL_ONE);
    let q = quantize_block(&d, &table);
    assert_eq!(q[0], 3 * 336 * 256);
    assert_eq!(q[1], 0);
    let coded = code_block(&vec![32768i64; 64], &build_quant_table(0));
    assert!(coded.iter().all(|v| *v == 32761));
}

#[test]
fn color_transform_values() {
    assert_eq!(rgb_to_ycbcr(255, 0, 0), (19518, 21752, 65408));
    assert_eq!(rgb_to_ycbcr(128, 128, 128), (32768, 32768, 32768));
    assert_eq!(ycbcr_to_rgb(32768, 32768, 32768), (128, 128, 128));
    let (y, cb, cr) = rgb_to_ycbcr(10, 200, 30);
    assert_eq!(ycbcr_to_rgb(y, cb, cr), (10, 200, 30));
    assert_eq!(ycbcr_to_rgb(-100_000, 32768, 32768), (0, 0, 0));
    assert_eq!(ycbcr_to_rgb(200_000, 32768, 32768), (255, 255, 255));
}

#[test]
fn rounding_division() {
    assert_eq!(div_round(5, 2), 3);
    assert_eq!(div_round(-5, 2), -2);
    assert_eq!(div_round(7, 3), 2);
    assert_eq!(div_round(-7, 3), -2);
    assert_eq!(div_round(-1, 2), 0);
    assert_eq!(div_round(0, 5), 0);
}

#[test]
fn flat_field_stays_uniform_at_every_factor() {
    for level in [1, 100_000, 250_000, 333_333, 500_000, 640_000, 750_000, 999_999, LEVEL_ONE] {
        let out = compress_jpeg(&image(11, 6, [128, 128, 128, 255]), level).unwrap();
        let first = [out.pixels[0], out.pixels[1], out.pixels[2], out.pixels[3]];
        assert_eq!(first[3], 255);
        assert!(out.pixels.chunks(4).all(|p| p == first));
    }
}
