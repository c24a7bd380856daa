use palquant::codec::{decode_indexed_png, decode_png_to_rgba, encode_palette_to_png};
use palquant::errors::{DecodeError, EncodeError};
use palquant::pixel::Pixel;

fn px(r: u8, g: u8, b: u8, a: u8) -> Pixel {
    Pixel { r, g, b, a }
}

// CRC-32 as PNG chunks carry it, for building test streams by hand.
fn crc32(data: &[u8]) -> u32 {
    let mut c: u32 = 0xFFFF_FFFF;
    for &b in data {
        c ^= b as u32;
        for _ in 0..8 {
            c = if c & 1 == 1 { 0xEDB8_8320 ^ (c >> 1) } else { c >> 1 };
        }
    }
    c ^ 0xFFFF_FFFF
}

// A zlib stream holding one stored (uncompressed) deflate block.
fn zlib_store(data: &[u8]) -> Vec<u8> {
    let mut out = vec![0x78, 0x01, 0x01];
    let len = data.len() as u16;
    out.push((len & 0xFF) as u8);
    out.push((len >> 8) as u8);
    out.push((!len & 0xFF) as u8);
    out.push(((!len) >> 8) as u8);
    out.extend_from_slice(data);
    let mut a: u32 = 1;
    let mut b: u32 = 0;
    for &v in data {
        a = (a + v as u32) % 65521;
        b = (b + a) % 65521;
    }
    let adler = (b << 16) | a;
    out.extend_from_slice(&adler.to_be_bytes());
    out
}

fn chunk(ctype: &[u8; 4], data: &[u8]) -> Vec<u8> {
    let mut out = Vec::new();
    out.extend_from_slice(&(data.len() as u32).to_be_bytes());
    out.extend_from_slice(ctype);
    out.extend_from_slice(data);
    let mut td = ctype.to_vec();
    td.extend_from_slice(data);
    out.extend_from_slice(&crc32(&td).to_be_bytes());
    out
}

// A complete PNG with the given header fields and raw (pre-compression)
// scanline bytes.
fn make_png(w: u32, h: u32, depth: u8, color: u8, raw: &[u8]) -> Vec<u8> {
    let mut ihdr = Vec::new();
    ihdr.extend_from_slice(&w.to_be_bytes());
    ihdr.extend_from_slice(&h.to_be_bytes());
    ihdr.extend_from_slice(&[depth, color, 0, 0, 0]);
    let mut out = vec![137, 80, 78, 71, 13, 10, 26, 10];
    out.extend_from_slice(&chunk(b"IHDR", &ihdr));
    out.extend_from_slice(&chunk(b"IDAT", &zlib_store(raw)));
    out.extend_from_slice(&chunk(b"IEND", &[]));
    out
}

#[test]
fn encode_decode_round_trip_preserves_indices() {
    let palette = vec![
        px(10, 20, 30, 128),
        px(40, 50, 60, 255),
        px(200, 210, 220, 255),
    ];
    let indices = vec![0u8, 1, 2, 2, 1, 0, 0, 1, 2, 1, 1, 0];
    let bytes = encode_palette_to_png(&indices, &palette, 4, 3).unwrap();
    let (got_idx, got_pal, w, h) = decode_indexed_png(&bytes).unwrap();
    assert_eq!(got_idx, indices);
    assert_eq!(got_pal, palette);
    assert_eq!((w, h), (4, 3));
}

#[test]
fn round_trip_with_full_256_entry_palette() {
    let mut palette = Vec::new();
    for i in 0..256usize {
        palette.push(px(i as u8, (255 - i) as u8, (i / 2) as u8, 255));
    }
    let indices: Vec<u8> = (0..=255u8).collect();
    let bytes = encode_palette_to_png(&indices, &palette, 16, 16).unwrap();
    let (got_idx, got_pal, w, h) = decode_indexed_png(&bytes).unwrap();
    assert_eq!(got_idx, indices);
    assert_eq!(got_pal, palette);
    assert_eq!((w, h), (16, 16));
}

fn find_chunk<'a>(bytes: &'a [u8], ctype: &[u8; 4]) -> Option<&'a [u8]> {
    let mut pos = 8;
    while pos + 12 <= bytes.len() {
        let len = u32::from_be_bytes([bytes[pos], bytes[pos + 1], bytes[pos + 2], bytes[pos + 3]])
            as usize;
        if &bytes[pos + 4..pos + 8] == ctype {
            return Some(&bytes[pos + 8..pos + 8 + len]);
        }
        pos += 12 + len;
    }
    None
}

#[test]
fn leading_translucent_entry_gives_one_byte_transparency_table() {
    let palette = vec![px(1, 2, 3, 128), px(4, 5, 6, 255), px(7, 8, 9, 255)];
    let indices = vec![0u8, 1, 2, 0];
    let bytes = encode_palette_to_png(&indices, &palette, 2, 2).unwrap();
    let trns = find_chunk(&bytes, b"tRNS").expect("transparency chunk expected");
    assert_eq!(trns, &[128u8][..]);
}

#[test]
fn all_opaque_palette_omits_transparency_chunk() {
    let palette = vec![px(1, 2, 3, 255), px(4, 5, 6, 255)];
    let indices = vec![0u8, 1];
    let bytes = encode_palette_to_png(&indices, &palette, 2, 1).unwrap();
    assert!(find_chunk(&bytes, b"tRNS").is_none());
    assert!(find_chunk(&bytes, b"PLTE").is_some());
}

#[test]
fn opaque_prefix_before_translucent_entry_is_kept_in_table() {
    let palette = vec![px(1, 1, 1, 255), px(2, 2, 2, 77), px(3, 3, 3, 255)];
    let indices = vec![0u8, 1, 2];
    let bytes = encode_palette_to_png(&indices, &palette, 3, 1).unwrap();
    let trns = find_chunk(&bytes, b"tRNS").unwrap();
    assert_eq!(trns, &[255u8, 77][..]);
    let (_, got_pal, _, _) = decode_indexed_png(&bytes).unwrap();
    assert_eq!(got_pal, palette);
}

#[test]
fn non_contiguous_transparency_is_rejected() {
    let palette = vec![px(1, 1, 1, 128), px(2, 2, 2, 255), px(3, 3, 3, 128)];
    let indices = vec![0u8, 1, 2];
    assert_eq!(
        encode_palette_to_png(&indices, &palette, 3, 1).unwrap_err(),
        EncodeError::UnrepresentableTransparency
    );
}

#[test]
fn encode_validates_inputs() {
    let palette = vec![px(0, 0, 0, 255)];
    assert_eq!(
        encode_palette_to_png(&vec![0u8; 3], &palette, 2, 2).unwrap_err(),
        EncodeError::DimensionMismatch
    );
    assert_eq!(
        encode_palette_to_png(&vec![0u8; 4], &palette, 0, 4).unwrap_err(),
        EncodeError::DimensionMismatch
    );
    assert_eq!(
        encode_palette_to_png(&vec![1u8; 4], &palette, 2, 2).unwrap_err(),
        EncodeError::IndexOutOfRange
    );
    let big: Vec<Pixel> = (0..257).map(|i| px((i % 256) as u8, 0, 0, 255)).collect();
    assert_eq!(
        encode_palette_to_png(&vec![0u8; 4], &big, 2, 2).unwrap_err(),
        EncodeError::PaletteTooLarge
    );
}

#[test]
fn decode_grayscale_replicates_channels() {
    // 2x2 gray image, filter byte 0 per row
    let raw = [0u8, 10, 20, 0, 30, 40];
    let bytes = make_png(2, 2, 8, 0, &raw);
    let (rgba, w, h) = decode_png_to_rgba(&bytes).unwrap();
    assert_eq!((w, h), (2, 2));
    assert_eq!(
        rgba,
        vec![10, 10, 10, 255, 20, 20, 20, 255, 30, 30, 30, 255, 40, 40, 40, 255]
    );
}

#[test]
fn decode_truecolor_adds_opaque_alpha() {
    let raw = [0u8, 1, 2, 3, 4, 5, 6];
    let bytes = make_png(2, 1, 8, 2, &raw);
    let (rgba, w, h) = decode_png_to_rgba(&bytes).unwrap();
    assert_eq!((w, h), (2, 1));
    assert_eq!(rgba, vec![1, 2, 3, 255, 4, 5, 6, 255]);
}

#[test]
fn decode_grayscale_alpha_keeps_alpha() {
    let raw = [0u8, 9, 100, 7, 200];
    let bytes = make_png(2, 1, 8, 4, &raw);
    let (rgba, _, _) = decode_png_to_rgba(&bytes).unwrap();
    assert_eq!(rgba, vec![9, 9, 9, 100, 7, 7, 7, 200]);
}

#[test]
fn decode_truecolor_alpha_is_copied_through() {
    let raw = [0u8, 1, 2, 3, 4, 5, 6, 7, 8];
    let bytes = make_png(2, 1, 8, 6, &raw);
    let (rgba, _, _) = decode_png_to_rgba(&bytes).unwrap();
    assert_eq!(rgba, vec![1, 2, 3, 4, 5, 6, 7, 8]);
}

#[test]
fn decode_sub_filter_is_reversed() {
    // one row of 3 RGB pixels with the sub filter: each byte adds the
    // byte one pixel to the left
    let raw = [1u8, 10, 20, 30, 5, 5, 5, 1, 1, 1];
    let bytes = make_png(3, 1, 8, 2, &raw);
    let (rgba, _, _) = decode_png_to_rgba(&bytes).unwrap();
    assert_eq!(
        rgba,
        vec![10, 20, 30, 255, 15, 25, 35, 255, 16, 26, 36, 255]
    );
}

#[test]
fn decode_up_filter_is_reversed() {
    // two rows of 1 gray pixel: second row uses the up filter
    let raw = [0u8, 50, 2, 25];
    let bytes = make_png(1, 2, 8, 0, &raw);
    let (rgba, _, _) = decode_png_to_rgba(&bytes).unwrap();
    assert_eq!(rgba, vec![50, 50, 50, 255, 75, 75, 75, 255]);
}

#[test]
fn decode_average_and_paeth_filters_are_reversed() {
    // 2x2 gray image: first row uses the average filter, second the
    // Paeth filter
    let raw = [3u8, 10, 20, 4, 7, 200];
    let bytes = make_png(2, 2, 8, 0, &raw);
    let (rgba, _, _) = decode_png_to_rgba(&bytes).unwrap();
    assert_eq!(
        rgba,
        vec![10, 10, 10, 255, 25, 25, 25, 255, 17, 17, 17, 255, 225, 225, 225, 255]
    );
}

#[test]
fn decode_rejects_unknown_filter_byte() {
    let raw = [9u8, 10, 20];
    let bytes = make_png(2, 1, 8, 0, &raw);
    assert_eq!(decode_png_to_rgba(&bytes).unwrap_err(), DecodeError::Corrupt);
}

#[test]
fn decode_rejects_indexed_input_as_unsupported() {
    let palette = vec![px(0, 0, 0, 255)];
    let bytes = encode_palette_to_png(&vec![0u8; 4], &palette, 2, 2).unwrap();
    assert_eq!(
        decode_png_to_rgba(&bytes).unwrap_err(),
        DecodeError::UnsupportedFormat
    );
}

#[test]
fn decode_rejects_bad_signature() {
    let mut bytes = make_png(1, 1, 8, 0, &[0, 5]);
    bytes[0] = 0;
    assert_eq!(decode_png_to_rgba(&bytes).unwrap_err(), DecodeError::Malformed);
}

#[test]
fn decode_rejects_bad_crc() {
    let mut bytes = make_png(1, 1, 8, 0, &[0, 5]);
    let n = bytes.len();
    bytes[n - 1] ^= 0xFF; // corrupt the IEND CRC
    assert_eq!(decode_png_to_rgba(&bytes).unwrap_err(), DecodeError::Corrupt);
}

#[test]
fn decode_rejects_truncated_stream() {
    let bytes = make_png(1, 1, 8, 0, &[0, 5]);
    let cut = &bytes[..bytes.len() - 6].to_vec();
    assert_eq!(decode_png_to_rgba(cut).unwrap_err(), DecodeError::Malformed);
}

#[test]
fn decode_rejects_corrupt_compressed_data() {
    let mut ihdr = Vec::new();
    ihdr.extend_from_slice(&1u32.to_be_bytes());
    ihdr.extend_from_slice(&1u32.to_be_bytes());
    ihdr.extend_from_slice(&[8, 0, 0, 0, 0]);
    let mut bytes = vec![137, 80, 78, 71, 13, 10, 26, 10];
    bytes.extend_from_slice(&chunk(b"IHDR", &ihdr));
    bytes.extend_from_slice(&chunk(b"IDAT", &[0x99, 0x99, 0x99]));
    bytes.extend_from_slice(&chunk(b"IEND", &[]));
    assert_eq!(decode_png_to_rgba(&bytes).unwrap_err(), DecodeError::Corrupt);
}

#[test]
fn decode_rejects_unsupported_bit_depth() {
    let bytes = make_png(1, 1, 16, 0, &[0, 5, 5]);
    assert_eq!(
        decode_png_to_rgba(&bytes).unwrap_err(),
        DecodeError::UnsupportedFormat
    );
}

#[test]
fn round_trip_after_quantization() {
    let mut q = palquant::quantizer::ImageQuantizer::new();
    q.set_max_colors(8).unwrap();
    let mut data = Vec::new();
    for i in 0..36u32 {
        let v = (i * 7) as u8;
        data.extend_from_slice(&[v, 255 - v, 128, 255]);
    }
    let res = q.quantize_image(&data, 6, 6).unwrap();
    let idx = res.get_palette_indices(&data, 6, 6).unwrap();
    let pal = res.get_palette();
    let bytes = encode_palette_to_png(&idx, &pal, 6, 6).unwrap();
    let (got_idx, got_pal, w, h) = decode_indexed_png(&bytes).unwrap();
    assert_eq!(got_idx, idx);
    assert_eq!(got_pal, pal);
    assert_eq!((w, h), (6, 6));
}
