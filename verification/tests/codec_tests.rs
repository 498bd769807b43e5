use atlas_gen::codec::{decode_icon, encode_gray_png, reduce_channels, PixelColor};
use atlas_gen::error::AtlasError;

fn encode_test_png(color: png::ColorType, width: u32, height: u32, data: &[u8]) -> Vec<u8> {
    let mut out: Vec<u8> = Vec::new();
    {
        let mut enc = png::Encoder::new(&mut out, width, height);
        enc.set_color(color);
        enc.set_depth(png::BitDepth::Eight);
        if color == png::ColorType::Indexed {
            // a small gray palette
            enc.set_palette(vec![0u8, 0, 0, 128, 128, 128, 255, 255, 255]);
        }
        let mut w = enc.write_header().unwrap();
        w.write_image_data(data).unwrap();
        w.finish().unwrap();
    }
    out
}

#[test]
fn rgb_reduces_to_truncated_average() {
    // one row of two pixels: (10, 20, 30) and (10, 20, 31)
    let raw = vec![10u8, 20, 30, 10, 20, 31];
    let p = reduce_channels(PixelColor::Rgb, 2, 1, 6, &raw).unwrap();
    assert_eq!(p, vec![20, 20]); // 60/3 = 20 and 61/3 = 20 (truncated)
}

#[test]
fn grayscale_passes_through() {
    let raw = vec![5u8, 250, 0, 17];
    let p = reduce_channels(PixelColor::Gray, 2, 2, 2, &raw).unwrap();
    assert_eq!(p, raw);
}

#[test]
fn alpha_layouts_keep_the_alpha_channel() {
    let ga = vec![100u8, 1, 100, 2];
    let p = reduce_channels(PixelColor::GrayAlpha, 2, 1, 4, &ga).unwrap();
    assert_eq!(p, vec![1, 2]);
    let rgba = vec![9u8, 9, 9, 40, 9, 9, 9, 41];
    let p = reduce_channels(PixelColor::Rgba, 2, 1, 8, &rgba).unwrap();
    assert_eq!(p, vec![40, 41]);
}

#[test]
fn indexed_layout_is_refused() {
    let raw = vec![0u8, 1, 2, 0];
    let err = reduce_channels(PixelColor::Indexed, 2, 2, 2, &raw).unwrap_err();
    assert_eq!(err, AtlasError::DecodeError);
}

#[test]
fn uniform_rgb_png_decodes_to_the_average_everywhere() {
    let mut data = Vec::new();
    for _ in 0..(3 * 2) {
        data.extend_from_slice(&[10u8, 20, 30]);
    }
    let file = encode_test_png(png::ColorType::Rgb, 3, 2, &data);
    let (w, h, pixels) = decode_icon(&file).unwrap();
    assert_eq!((w, h), (3, 2));
    assert_eq!(pixels, vec![20u8; 6]);
}

#[test]
fn indexed_png_fails_with_decode_error() {
    let file = encode_test_png(png::ColorType::Indexed, 2, 2, &[0u8, 1, 2, 1]);
    let err = decode_icon(&file).unwrap_err();
    assert_eq!(err, AtlasError::DecodeError);
}

#[test]
fn garbage_bytes_fail_with_decode_error() {
    let err = decode_icon(&[1, 2, 3, 4, 5]).unwrap_err();
    assert_eq!(err, AtlasError::DecodeError);
}

#[test]
fn oversized_dimensions_are_refused_before_encoding() {
    // width * height is 0, so the empty buffer is consistent, but the width
    // cannot be represented in the image format
    let err = encode_gray_png(4294967296, 0, &Vec::new()).unwrap_err();
    assert_eq!(err, AtlasError::ArgumentError);
}

#[test]
fn zero_dimensions_cannot_be_encoded() {
    // the image format cannot express a zero width or height
    let err = encode_gray_png(0, 4, &Vec::new()).unwrap_err();
    assert_eq!(err, AtlasError::Io);
    let err = encode_gray_png(4, 0, &Vec::new()).unwrap_err();
    assert_eq!(err, AtlasError::Io);
}

#[test]
fn gray_encode_then_decode_roundtrips() {
    let pixels = vec![0u8, 64, 128, 255, 3, 7];
    let file = encode_gray_png(3, 2, &pixels).unwrap();
    let (w, h, back) = decode_icon(&file).unwrap();
    assert_eq!((w, h), (3, 2));
    assert_eq!(back, pixels);
}

#[test]
fn rgba_png_decodes_to_its_alpha_channel() {
    let data = vec![
        1u8, 2, 3, 10, //
        4, 5, 6, 20, //
        7, 8, 9, 30, //
        10, 11, 12, 40,
    ];
    let file = encode_test_png(png::ColorType::Rgba, 2, 2, &data);
    let (w, h, pixels) = decode_icon(&file).unwrap();
    assert_eq!((w, h), (2, 2));
    assert_eq!(pixels, vec![10, 20, 30, 40]);
}
