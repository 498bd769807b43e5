//! The image codec boundary: PNG decoding and encoding are done by the `png`
//! crate on in-memory byte buffers, behind trusted wrappers; the
//! channel-reduction policy that turns a decoded frame into single-channel
//! pixels is the library's own and is verified.

use vstd::prelude::*;

use crate::atlas::pix_at;
use crate::error::AtlasError;

verus! {

/// The color layout of a decoded frame, one variant per PNG color type.
#[derive(Clone, Copy, Debug, PartialEq, Eq, Structural)]
pub enum PixelColor {
    /// One grayscale sample per pixel.
    Gray,
    /// A grayscale sample, then an alpha sample.
    GrayAlpha,
    /// One palette index per pixel; not supported by the reduction policy.
    Indexed,
    /// Red, green and blue samples.
    Rgb,
    /// Red, green, blue and alpha samples.
    Rgba,
}

/// What a decoded frame looks like: dimensions, color layout, bits per
/// sample, and the byte length of one output scanline.
#[derive(Clone, Copy, Debug, PartialEq, Eq, Structural)]
pub struct FrameMeta {
    pub width: u32,
    pub height: u32,
    pub color: PixelColor,
    pub depth_bits: u8,
    pub line_size: usize,
}

/// Samples per pixel of each color layout.
pub open spec fn samples_of(c: PixelColor) -> int {
    match c {
        PixelColor::Gray => 1,
        PixelColor::GrayAlpha => 2,
        PixelColor::Indexed => 1,
        PixelColor::Rgb => 3,
        PixelColor::Rgba => 4,
    }
}

/// The single-channel value of the pixel at column `x`, row `y` of a decoded
/// 8-bit frame, under the reduction policy: grayscale as is, the alpha
/// channel where one exists, and for RGB the integer-truncated unweighted
/// average of the three channels. (The `Indexed` arm is never used: indexed
/// frames are refused.)
pub open spec fn reduced_pixel(
    c: PixelColor,
    raw: Seq<u8>,
    line_size: int,
    x: int,
    y: int,
) -> u8 {
    let base = y * line_size + x * samples_of(c);
    match c {
        PixelColor::Gray => raw[base],
        PixelColor::GrayAlpha => raw[base + 1],
        PixelColor::Indexed => raw[base],
        PixelColor::Rgb => (((raw[base] as int + raw[base + 1] as int + raw[base + 2] as int)
            / 3) as u8),
        PixelColor::Rgba => raw[base + 3],
    }
}

/// What decoding a PNG byte stream yields: the frame description and the
/// raw output scanlines, or nothing where the stream is not a decodable PNG.
/// Decoding is a function of the bytes alone (the decoder is built with its
/// fixed default settings), so the result is named rather than written out.
pub uninterp spec fn png_decode(data: Seq<u8>) -> Option<(FrameMeta, Seq<u8>)>;

/// A name for the PNG file that encodes `pixels` as an 8-bit grayscale image
/// of the given dimensions: the encoder is deterministic, so its output is a
/// function of its arguments alone.
pub uninterp spec fn gray_png_of(width: u32, height: u32, pixels: Seq<u8>) -> Seq<u8>;

#[verifier::external_type_specification]
#[verifier::external_body]
pub struct ExPngOutputInfo(png::OutputInfo);

/// Relies on the `png` crate's `OutputInfo` fields: `width` and `height` are
/// the frame's pixel dimensions, `color_type` and `bit_depth` describe the
/// output samples (`BitDepth` is `repr(u8)` with its bit count as value),
/// and `line_size` is the byte count of one output scanline.
#[verifier::external_body]
fn frame_meta_of(info: &png::OutputInfo) -> (m: FrameMeta) {
    let color = match info.color_type {
        png::ColorType::Grayscale => PixelColor::Gray,
        png::ColorType::GrayscaleAlpha => PixelColor::GrayAlpha,
        png::ColorType::Indexed => PixelColor::Indexed,
        png::ColorType::Rgb => PixelColor::Rgb,
        png::ColorType::Rgba => PixelColor::Rgba,
    };
    FrameMeta {
        width: info.width,
        height: info.height,
        color,
        depth_bits: info.bit_depth as u8,
        line_size: info.line_size,
    }
}

/// Relies on the `png` crate's decoder (`Decoder::new`, `read_info`,
/// `output_buffer_size`, `next_frame`): decoding depends on the input bytes
/// alone, and succeeds exactly when they hold a decodable PNG, so the result
/// is [`png_decode`] of the bytes. On success the returned buffer holds
/// `height` decoded scanlines of `line_size` bytes each, row-major, and for
/// an 8-bit frame one scanline is `samples * width` bytes (per
/// `ColorType::raw_row_length_from_width`).
#[verifier::external_body]
fn decode_png_bytes(data: &[u8]) -> (r: Result<(FrameMeta, Vec<u8>), AtlasError>)
    ensures
        match r {
            Ok(p) => {
                &&& png_decode(data@) == Some((p.0, p.1@))
                &&& p.1@.len() >= p.0.line_size * p.0.height
                &&& (p.0.depth_bits == 8 ==> p.0.line_size == samples_of(p.0.color) * p.0.width)
            },
            Err(e) => e == AtlasError::DecodeError && png_decode(data@) is None,
        },
{
    let decoder = png::Decoder::new(std::io::Cursor::new(data));
    let mut reader = decoder.read_info().map_err(|_| AtlasError::DecodeError)?;
    let size = reader.output_buffer_size().ok_or(AtlasError::DecodeError)?;
    let mut buf = vec![0u8; size];
    let info = reader.next_frame(&mut buf).map_err(|_| AtlasError::DecodeError)?;
    Ok((frame_meta_of(&info), buf))
}

/// Relies on the `png` crate's encoder (`Encoder::new`, `set_color`,
/// `set_depth`, `write_header`, `write_image_data`, `finish`): encoding
/// writes into an in-memory buffer and is deterministic, so the output is
/// [`gray_png_of`] of the arguments; with the buffer length matching the
/// dimensions, the encoder refuses only a zero width or height.
#[verifier::external_body]
fn encode_gray_png_bytes(width: u32, height: u32, pixels: &[u8]) -> (r: Result<Vec<u8>, AtlasError>)
    requires
        pixels@.len() == width * height,
    ensures
        match r {
            Ok(bytes) => width > 0 && height > 0 && bytes@ == gray_png_of(
                width,
                height,
                pixels@,
            ),
            Err(e) => e == AtlasError::Io && (width == 0 || height == 0),
        },
{
    let mut out: Vec<u8> = Vec::new();
    let mut enc = png::Encoder::new(&mut out, width, height);
    enc.set_color(png::ColorType::Grayscale);
    enc.set_depth(png::BitDepth::Eight);
    let mut w = enc.write_header().map_err(|_| AtlasError::Io)?;
    w.write_image_data(pixels).map_err(|_| AtlasError::Io)?;
    w.finish().map_err(|_| AtlasError::Io)?;
    Ok(out)
}

/// Samples per pixel, as executable code.
fn sample_count(c: PixelColor) -> (n: usize)
    ensures
        n == samples_of(c),
{
    match c {
        PixelColor::Gray => 1,
        PixelColor::GrayAlpha => 2,
        PixelColor::Indexed => 1,
        PixelColor::Rgb => 3,
        PixelColor::Rgba => 4,
    }
}

/// Apply the channel-reduction policy to a decoded 8-bit frame: grayscale
/// passes through, layouts with alpha keep the alpha channel, RGB averages
/// the three channels with integer truncation, and indexed-palette frames
/// are refused with `DecodeError` rather than silently mis-read.
#[verifier::loop_isolation(false)]
pub fn reduce_channels(
    color: PixelColor,
    width: usize,
    height: usize,
    line_size: usize,
    raw: &Vec<u8>,
) -> (res: Result<Vec<u8>, AtlasError>)
    requires
        line_size == samples_of(color) * width,
        raw@.len() >= height * line_size,
        width * height <= usize::MAX,
    ensures
        res is Err <==> color == PixelColor::Indexed,
        match res {
            Ok(p) => {
                &&& p@.len() == width * height
                &&& forall|x: int, y: int|
                    0 <= x < width && 0 <= y < height ==> #[trigger] pix_at(p@, width as int, x, y)
                        == reduced_pixel(color, raw@, line_size as int, x, y)
            },
            Err(e) => e == AtlasError::DecodeError,
        },
{
    if color == PixelColor::Indexed {
        return Err(AtlasError::DecodeError);
    }
    let _raw_len = raw.len();
    let ps = sample_count(color);
    let mut out: Vec<u8> = Vec::new();
    let mut y: usize = 0;
    while y < height
        invariant
            y <= height,
            out@.len() == y * width,
            forall|xx: int, yy: int|
                0 <= xx < width && 0 <= yy < y ==> #[trigger] pix_at(out@, width as int, xx, yy)
                    == reduced_pixel(color, raw@, line_size as int, xx, yy),
        decreases height - y,
    {
        proof {
            lemma_mul_step_bounds(y as int, height as int, width as int);
            lemma_mul_step_bounds(y as int, height as int, line_size as int);
        }
        let row_base = y * line_size;
        let mut x: usize = 0;
        while x < width
            invariant
                x <= width,
                y < height,
                row_base == y * line_size,
                row_base + line_size <= height * line_size,
                out@.len() == y * width + x,
                forall|xx: int, yy: int|
                    0 <= xx < width && 0 <= yy < y ==> #[trigger] pix_at(out@, width as int, xx, yy)
                        == reduced_pixel(color, raw@, line_size as int, xx, yy),
                forall|xx: int|
                    0 <= xx < x ==> #[trigger] pix_at(out@, width as int, xx, y as int)
                        == reduced_pixel(color, raw@, line_size as int, xx, y as int),
        decreases width - x,
    {
            proof {
                assert(x * ps + ps <= line_size) by (nonlinear_arith)
                    requires
                        0 <= x < width,
                        line_size == ps * width,
                        0 <= ps,
                ;
            }
            let base = row_base + x * ps;
            let v: u8 = match color {
                PixelColor::Gray => raw[base],
                PixelColor::GrayAlpha => raw[base + 1],
                PixelColor::Indexed => 0,
                PixelColor::Rgb => {
                    let sum: u32 = raw[base] as u32 + raw[base + 1] as u32 + raw[base + 2] as u32;
                    proof {
                        assert(sum / 3 <= 255) by (nonlinear_arith)
                            requires
                                sum <= 765,
                        ;
                    }
                    (sum / 3) as u8
                },
                PixelColor::Rgba => raw[base + 3],
            };
            let ghost out_before = out@;
            out.push(v);
            proof {
                assert(pix_at(out@, width as int, x as int, y as int) == reduced_pixel(
                    color,
                    raw@,
                    line_size as int,
                    x as int,
                    y as int,
                ));
                assert forall|xx: int, yy: int|
                    0 <= xx < width && 0 <= yy < y implies #[trigger] pix_at(
                    out@,
                    width as int,
                    xx,
                    yy,
                ) == reduced_pixel(color, raw@, line_size as int, xx, yy) by {
                    lemma_row_index_below(width as int, y as int, xx, yy);
                    assert(pix_at(out_before, width as int, xx, yy) == reduced_pixel(
                        color,
                        raw@,
                        line_size as int,
                        xx,
                        yy,
                    ));
                }
                assert forall|xx: int|
                    0 <= xx < x + 1 implies #[trigger] pix_at(out@, width as int, xx, y as int)
                    == reduced_pixel(color, raw@, line_size as int, xx, y as int) by {
                    lemma_row_index_below(width as int, y as int + 1, xx, y as int);
                    if xx < x {
                        assert(pix_at(out_before, width as int, xx, y as int) == reduced_pixel(
                            color,
                            raw@,
                            line_size as int,
                            xx,
                            y as int,
                        ));
                    }
                }
            }
            x += 1;
        }
        proof {
            assert forall|xx: int, yy: int|
                0 <= xx < width && 0 <= yy < y + 1 implies #[trigger] pix_at(
                out@,
                width as int,
                xx,
                yy,
            ) == reduced_pixel(color, raw@, line_size as int, xx, yy) by {
                if yy == y as int {
                    assert(pix_at(out@, width as int, xx, y as int) == reduced_pixel(
                        color,
                        raw@,
                        line_size as int,
                        xx,
                        y as int,
                    ));
                }
            }
        }
        y += 1;
    }
    proof {
        assert(height * width == width * height) by (nonlinear_arith);
    }
    Ok(out)
}

/// The bytes decode to a frame the reduction policy accepts: 8 bits per
/// sample, not indexed, and small enough for its pixel count to be held.
pub open spec fn decodes_to_icon(data: Seq<u8>) -> bool {
    match png_decode(data) {
        Some(f) => f.0.depth_bits == 8 && f.0.color != PixelColor::Indexed && f.0.width
            * f.0.height <= usize::MAX,
        None => false,
    }
}

/// Decode PNG bytes and reduce them to a single-channel bitmap. Succeeds
/// exactly when the bytes decode to an acceptable frame; the result is then
/// the frame's width and height and its `width * height` pixels, each the
/// [`reduced_pixel`] of the decoded scanlines. Fails with `DecodeError` on
/// malformed data, on a frame that is not 8 bits per sample, on an
/// indexed-palette frame, and on a frame too large to hold.
pub fn decode_icon(data: &[u8]) -> (res: Result<(usize, usize, Vec<u8>), AtlasError>)
    ensures
        res is Ok <==> decodes_to_icon(data@),
        match res {
            Ok(p) => match png_decode(data@) {
                Some(f) => {
                    &&& p.0 == f.0.width
                    &&& p.1 == f.0.height
                    &&& p.2@.len() == p.0 * p.1
                    &&& forall|x: int, y: int|
                        0 <= x < f.0.width && 0 <= y < f.0.height ==> #[trigger] pix_at(
                            p.2@,
                            f.0.width as int,
                            x,
                            y,
                        ) == reduced_pixel(f.0.color, f.1, f.0.line_size as int, x, y)
                },
                None => false,
            },
            Err(e) => e == AtlasError::DecodeError,
        },
{
    let (meta, raw) = match decode_png_bytes(data) {
        Ok(p) => p,
        Err(e) => {
            return Err(e);
        },
    };
    if meta.depth_bits != 8 {
        return Err(AtlasError::DecodeError);
    }
    let w = meta.width as usize;
    let h = meta.height as usize;
    let total = match w.checked_mul(h) {
        Some(t) => t,
        None => {
            return Err(AtlasError::DecodeError);
        },
    };
    proof {
        assert(total == w * h);
        assert(h * meta.line_size == meta.line_size * h) by (nonlinear_arith);
    }
    match reduce_channels(meta.color, w, h, meta.line_size, &raw) {
        Ok(pixels) => Ok((w, h, pixels)),
        Err(e) => Err(e),
    }
}

/// Encode a single-channel canvas as an 8-bit grayscale PNG byte buffer:
/// the result is [`gray_png_of`] the dimensions and pixels. Dimensions
/// beyond the image format's 32-bit range are refused with `ArgumentError`;
/// a zero width or height, which the format cannot express, fails with `Io`.
pub fn encode_gray_png(width: usize, height: usize, pixels: &Vec<u8>) -> (res: Result<
    Vec<u8>,
    AtlasError,
>)
    requires
        pixels@.len() == width * height,
    ensures
        res is Ok <==> (0 < width <= u32::MAX && 0 < height <= u32::MAX),
        (width > u32::MAX || height > u32::MAX) <==> res == Err::<Vec<u8>, AtlasError>(
            AtlasError::ArgumentError,
        ),
        match res {
            Ok(bytes) => bytes@ == gray_png_of(width as u32, height as u32, pixels@),
            Err(e) => e == AtlasError::Io || e == AtlasError::ArgumentError,
        },
{
    if width > u32::MAX as usize || height > u32::MAX as usize {
        return Err(AtlasError::ArgumentError);
    }
    match encode_gray_png_bytes(width as u32, height as u32, pixels.as_slice()) {
        Ok(bytes) => Ok(bytes),
        Err(_) => Err(AtlasError::Io),
    }
}

/// Stepping one row (or one pixel) forward stays within the buffer.
proof fn lemma_mul_step_bounds(i: int, n: int, stride: int)
    requires
        0 <= i < n,
        0 <= stride,
    ensures
        i * stride + stride <= n * stride,
        (i + 1) * stride == i * stride + stride,
{
    assert(i * stride + stride <= n * stride && (i + 1) * stride == i * stride + stride)
        by (nonlinear_arith)
        requires
            0 <= i < n,
            0 <= stride,
    ;
}

/// A row-major index of a row strictly below `h` stays below the first
/// `h * w` entries.
proof fn lemma_row_index_below(w: int, h: int, x: int, y: int)
    requires
        0 <= x < w,
        0 <= y < h,
    ensures
        0 <= y * w + x < h * w,
        (y + 1) * w == y * w + w,
{
    assert(0 <= y * w + x < h * w && (y + 1) * w == y * w + w) by (nonlinear_arith)
        requires
            0 <= x < w,
            0 <= y < h,
    ;
}

} // verus!
