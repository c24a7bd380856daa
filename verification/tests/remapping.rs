use palquant::errors::{ConfigError, RemapError};
use palquant::pixel::Pixel;
use palquant::quantizer::ImageQuantizer;
use palquant::remap::remap;

fn px(r: u8, g: u8, b: u8, a: u8) -> Pixel {
    Pixel { r, g, b, a }
}

#[test]
fn remap_with_empty_palette_fails() {
    let pal: Vec<Pixel> = Vec::new();
    let data = vec![0u8; 16];
    assert_eq!(remap(&pal, &data, 2, 2, 0).unwrap_err(), RemapError::EmptyPalette);
}

#[test]
fn remap_with_bad_dimensions_fails() {
    let pal = vec![px(0, 0, 0, 255)];
    let data = vec![0u8; 15];
    assert_eq!(remap(&pal, &data, 2, 2, 0).unwrap_err(), RemapError::DimensionMismatch);
}

#[test]
fn remap_output_is_full_length_and_in_range() {
    let pal = vec![px(0, 0, 0, 255), px(255, 255, 255, 255), px(128, 0, 0, 255)];
    let mut data = Vec::new();
    for i in 0..30u32 {
        let v = (i * 8) as u8;
        data.extend_from_slice(&[v, v / 2, 255 - v, 255]);
    }
    for level in [0u8, 50, 100] {
        let idx = remap(&pal, &data, 5, 6, level).unwrap();
        assert_eq!(idx.len(), 30);
        assert!(idx.iter().all(|&v| (v as usize) < pal.len()));
    }
}

#[test]
fn remap_picks_nearest_entry_lowest_index_on_ties() {
    let pal = vec![px(0, 0, 0, 255), px(100, 0, 0, 255), px(100, 0, 0, 255)];
    let data = vec![
        90, 0, 0, 255, // nearest to entry 1 (and the equal entry 2): index 1 wins
        10, 0, 0, 255, // nearest to entry 0
    ];
    let idx = remap(&pal, &data, 2, 1, 0).unwrap();
    assert_eq!(idx, vec![1, 0]);
}

#[test]
fn dithering_level_zero_is_deterministic() {
    let pal = vec![px(0, 0, 0, 255), px(255, 255, 255, 255)];
    let mut data = Vec::new();
    for i in 0..64u32 {
        let v = (i * 4) as u8;
        data.extend_from_slice(&[v, v, v, 255]);
    }
    let first = remap(&pal, &data, 8, 8, 0).unwrap();
    let second = remap(&pal, &data, 8, 8, 0).unwrap();
    assert_eq!(first, second);
}

#[test]
fn dithering_spreads_midtones_between_entries() {
    let pal = vec![px(0, 0, 0, 255), px(255, 255, 255, 255)];
    // a flat mid-gray: without dithering every pixel maps one way,
    // with full dithering both entries must appear
    let mut data = Vec::new();
    for _ in 0..64 {
        data.extend_from_slice(&[128, 128, 128, 255]);
    }
    let flat = remap(&pal, &data, 8, 8, 0).unwrap();
    assert!(flat.iter().all(|&v| v == flat[0]));
    let dithered = remap(&pal, &data, 8, 8, 100).unwrap();
    assert!(dithered.iter().any(|&v| v == 0));
    assert!(dithered.iter().any(|&v| v == 1));
}

#[test]
fn set_dithering_validates_range() {
    let mut q = ImageQuantizer::new();
    let data = vec![5u8, 5, 5, 255];
    let mut res = q.quantize_image(&data, 1, 1).unwrap();
    assert!(res.set_dithering(0).is_ok());
    assert!(res.set_dithering(100).is_ok());
    assert_eq!(res.set_dithering(101), Err(ConfigError::ValueOutOfRange));
}

#[test]
fn remap_image_expands_indices_to_palette_colors() {
    let mut q = ImageQuantizer::new();
    q.set_max_colors(2).unwrap();
    let mut data = Vec::new();
    for _ in 0..3 {
        data.extend_from_slice(&[250, 0, 0, 255]);
    }
    data.extend_from_slice(&[0, 0, 250, 255]);
    let res = q.quantize_image(&data, 2, 2).unwrap();
    let rgba = res.remap_image(&data, 2, 2).unwrap();
    assert_eq!(rgba.len(), 16);
    // every output pixel is one of the two palette entries, and the
    // remapped image reproduces the two-color input exactly
    assert_eq!(rgba, data);
}

#[test]
fn remap_against_different_image_than_quantized() {
    let mut q = ImageQuantizer::new();
    let data = vec![0u8, 0, 0, 255, 255, 255, 255, 255];
    let res = q.quantize_image(&data, 2, 1).unwrap();
    let other = vec![10u8, 10, 10, 255, 240, 240, 240, 255, 0, 0, 0, 255];
    let idx = res.get_palette_indices(&other, 3, 1).unwrap();
    assert_eq!(idx.len(), 3);
    let pal = res.get_palette();
    assert!(idx.iter().all(|&v| (v as usize) < pal.len()));
}
