use palquant::errors::{ConfigError, QuantizeError};
use palquant::pixel::Pixel;
use palquant::quantizer::ImageQuantizer;

fn solid_image(px: [u8; 4], n: usize) -> Vec<u8> {
    let mut data = Vec::new();
    for _ in 0..n {
        data.extend_from_slice(&px);
    }
    data
}

#[test]
fn config_defaults_accept_ranges() {
    let mut q = ImageQuantizer::new();
    assert!(q.set_speed(1).is_ok());
    assert!(q.set_speed(10).is_ok());
    assert_eq!(q.set_speed(0), Err(ConfigError::ValueOutOfRange));
    assert_eq!(q.set_speed(11), Err(ConfigError::ValueOutOfRange));
    assert!(q.set_quality(0, 100).is_ok());
    assert!(q.set_quality(30, 80).is_ok());
    assert_eq!(q.set_quality(0, 101), Err(ConfigError::ValueOutOfRange));
    assert_eq!(q.set_quality(90, 80), Err(ConfigError::MinAboveTarget));
    assert!(q.set_posterization(0).is_ok());
    assert!(q.set_posterization(4).is_ok());
    assert_eq!(q.set_posterization(5), Err(ConfigError::ValueOutOfRange));
}

#[test]
fn max_colors_zero_is_a_config_error() {
    let mut q = ImageQuantizer::new();
    assert_eq!(q.set_max_colors(0), Err(ConfigError::ValueOutOfRange));
    assert_eq!(q.set_max_colors(257), Err(ConfigError::ValueOutOfRange));
    assert!(q.set_max_colors(1).is_ok());
    assert!(q.set_max_colors(256).is_ok());
}

#[test]
fn quantize_rejects_bad_dimensions() {
    let mut q = ImageQuantizer::new();
    let data = solid_image([1, 2, 3, 255], 4);
    assert_eq!(
        q.quantize_image(&data, 3, 1).unwrap_err(),
        QuantizeError::DimensionMismatch
    );
}

#[test]
fn quantize_rejects_empty_input() {
    let mut q = ImageQuantizer::new();
    let data: Vec<u8> = Vec::new();
    assert_eq!(q.quantize_image(&data, 0, 0).unwrap_err(), QuantizeError::EmptyInput);
}

#[test]
fn single_color_image_gives_one_exact_entry() {
    let mut q = ImageQuantizer::new();
    let data = solid_image([10, 20, 30, 255], 12);
    let res = q.quantize_image(&data, 4, 3).unwrap();
    let pal = res.get_palette();
    assert_eq!(pal.len(), 1);
    assert_eq!(pal[0], Pixel { r: 10, g: 20, b: 30, a: 255 });
    let idx = res.get_palette_indices(&data, 4, 3).unwrap();
    assert_eq!(idx, vec![0u8; 12]);
    assert_eq!(res.get_quantization_quality(), 100);
}

#[test]
fn two_color_image_gives_both_colors_heaviest_first() {
    let mut q = ImageQuantizer::new();
    q.set_max_colors(2).unwrap();
    let a = [200u8, 10, 10, 255];
    let b = [10u8, 10, 200, 255];
    // 700 pixels of a, 300 of b, in a 1000x1 image
    let mut data = Vec::new();
    for _ in 0..700 {
        data.extend_from_slice(&a);
    }
    for _ in 0..300 {
        data.extend_from_slice(&b);
    }
    let res = q.quantize_image(&data, 1000, 1).unwrap();
    let pal = res.get_palette();
    assert_eq!(pal.len(), 2);
    assert_eq!(pal[0], Pixel { r: 200, g: 10, b: 10, a: 255 });
    assert_eq!(pal[1], Pixel { r: 10, g: 10, b: 200, a: 255 });
    let idx = res.get_palette_indices(&data, 1000, 1).unwrap();
    assert_eq!(idx.iter().filter(|&&v| v == 0).count(), 700);
    assert_eq!(idx.iter().filter(|&&v| v == 1).count(), 300);
}

#[test]
fn palette_length_respects_max_colors() {
    let mut q = ImageQuantizer::new();
    q.set_max_colors(4).unwrap();
    // 16 distinct colors in a 4x4 image
    let mut data = Vec::new();
    for i in 0..16u8 {
        data.extend_from_slice(&[i * 16, 255 - i * 16, i, 255]);
    }
    let res = q.quantize_image(&data, 4, 4).unwrap();
    let len = res.get_palette_length();
    assert!(len >= 1 && len <= 4);
}

#[test]
fn quality_is_monotone_in_max_colors() {
    // a fixed gradient image, quantized with growing palette budgets
    let mut data = Vec::new();
    for i in 0..64u32 {
        let v = (i * 4) as u8;
        data.extend_from_slice(&[v, 255 - v, v / 2, 255]);
    }
    let mut last = 0u8;
    for mc in [1u32, 2, 4, 8, 16, 32, 64] {
        let mut q = ImageQuantizer::new();
        q.set_max_colors(mc).unwrap();
        let res = q.quantize_image(&data, 8, 8).unwrap();
        let quality = res.get_quantization_quality();
        assert!(quality >= last, "quality dropped when max_colors grew");
        last = quality;
    }
}

#[test]
fn unattainable_minimum_quality_is_reported() {
    let mut q = ImageQuantizer::new();
    q.set_max_colors(1).unwrap();
    q.set_quality(100, 100).unwrap();
    // two very different colors cannot be reproduced perfectly by one entry
    let mut data = Vec::new();
    for _ in 0..8 {
        data.extend_from_slice(&[0, 0, 0, 255]);
    }
    for _ in 0..8 {
        data.extend_from_slice(&[255, 255, 255, 255]);
    }
    assert_eq!(
        q.quantize_image(&data, 4, 4).unwrap_err(),
        QuantizeError::QualityUnattainable
    );
}

#[test]
fn posterization_coalesces_similar_colors() {
    let mut q = ImageQuantizer::new();
    q.set_posterization(4).unwrap();
    q.set_max_colors(256).unwrap();
    // two colors differing only in the low 4 bits of each channel
    let mut data = Vec::new();
    for _ in 0..4 {
        data.extend_from_slice(&[0x10, 0x20, 0x30, 0xF0]);
    }
    for _ in 0..4 {
        data.extend_from_slice(&[0x1F, 0x2F, 0x3F, 0xFF]);
    }
    let res = q.quantize_image(&data, 8, 1).unwrap();
    assert_eq!(res.get_palette_length(), 1);
}

#[test]
fn two_color_tie_breaks_by_lowest_color_key() {
    let mut q = ImageQuantizer::new();
    q.set_max_colors(2).unwrap();
    // equal pixel counts: the entry with the lower packed color key leads
    let lo = [10u8, 0, 0, 255];
    let hi = [200u8, 0, 0, 255];
    let mut data = Vec::new();
    for _ in 0..4 {
        data.extend_from_slice(&hi);
    }
    for _ in 0..4 {
        data.extend_from_slice(&lo);
    }
    let res = q.quantize_image(&data, 8, 1).unwrap();
    let pal = res.get_palette();
    assert_eq!(pal.len(), 2);
    assert_eq!(pal[0], Pixel { r: 10, g: 0, b: 0, a: 255 });
    assert_eq!(pal[1], Pixel { r: 200, g: 0, b: 0, a: 255 });
}
