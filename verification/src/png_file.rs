//! PNG files.

use crate::error::ConvertError;
use vstd::prelude::*;

verus! {

/// How the samples of a pixel are to be read.
#[derive(Debug, Clone, Copy, PartialEq, Eq, Structural)]
pub enum ColorType {
    Grayscale,
    Rgb,
    Indexed,
    GrayscaleAlpha,
    Rgba,
}

/// How hard the encoder tries to make a file small.
#[derive(Debug, Clone, Copy, PartialEq, Eq, Structural)]
pub enum Compression {
    Default,
    Fast,
    Best,
}

/// The bits of each sample of the files that are written.
pub const SAMPLE_BITS: u8 = 8;

/// The most bytes of a row that the decoder reads.
pub const MAX_ROW_BYTES: u64 = 67108864;

impl ColorType {
    /// The number of samples of a pixel.
    pub open spec fn samples(self) -> int {
        match self {
            ColorType::Grayscale => 1,
            ColorType::Rgb => 3,
            ColorType::Indexed => 1,
            ColorType::GrayscaleAlpha => 2,
            ColorType::Rgba => 4,
        }
    }

    /// The number that stands for the color type in a PNG header.
    pub open spec fn spec_code(self) -> u8 {
        match self {
            ColorType::Grayscale => 0,
            ColorType::Rgb => 2,
            ColorType::Indexed => 3,
            ColorType::GrayscaleAlpha => 4,
            ColorType::Rgba => 6,
        }
    }

    /// The number that stands for the color type in a PNG header.
    pub fn code(self) -> (code: u8)
        ensures
            code == self.spec_code(),
    {
        match self {
            ColorType::Grayscale => 0,
            ColorType::Rgb => 2,
            ColorType::Indexed => 3,
            ColorType::GrayscaleAlpha => 4,
            ColorType::Rgba => 6,
        }
    }
}

/// Whether images of a color type can be converted: grayscale, RGB and RGBA ones can.
pub open spec fn supported_color(color_type: ColorType) -> bool {
    color_type == ColorType::Grayscale || color_type == ColorType::Rgb || color_type
        == ColorType::Rgba
}

/// What a PNG file shows.
pub struct Frame {
    pub width: u32,
    pub height: u32,
    pub color_type: ColorType,
    pub pixels: Seq<u8>,
}

/// A decoded PNG image: the samples of its pixels, row by row, as the file holds them.
#[derive(Debug)]
pub struct PngImage {
    pub width: u32,
    pub height: u32,
    pub color_type: ColorType,
    pub pixels: Vec<u8>,
}

impl View for PngImage {
    type V = Frame;

    open spec fn view(&self) -> Frame {
        Frame {
            width: self.width,
            height: self.height,
            color_type: self.color_type,
            pixels: self.pixels@,
        }
    }
}

/// What `png::Reader::next_frame` reads from a file, or `None` where the file cannot be read.
pub uninterp spec fn png_frame(file: Seq<u8>) -> Option<Frame>;

/// What `png::Writer` writes for an image of the given size, color code, sample size and
/// compression, and the given samples.
pub uninterp spec fn png_bytes(
    width: u32,
    height: u32,
    color: u8,
    sample_bits: u8,
    compression: Compression,
    pixels: Seq<u8>,
) -> Seq<u8>;

/// Reads a PNG file with `png::Decoder::read_info` and `png::Reader::next_frame`.
///
/// What they give is named by `png_frame`: it depends on the bytes of the file alone. Nothing is
/// said of an image for which there is not enough memory.
#[verifier::external_body]
fn read_frame(file: &[u8]) -> (res: Result<PngImage, png::DecodingError>)
    ensures
        match res {
            Ok(image) => png_frame(file@) == Some(image@),
            Err(_) => png_frame(file@) is None,
        },
{
    let mut reader = png::Decoder::new(file).read_info()?;
    let mut pixels = vec![0u8; reader.output_buffer_size()];
    let info = reader.next_frame(&mut pixels)?;
    let color_type = match info.color_type {
        png::ColorType::Grayscale => ColorType::Grayscale,
        png::ColorType::Rgb => ColorType::Rgb,
        png::ColorType::Indexed => ColorType::Indexed,
        png::ColorType::GrayscaleAlpha => ColorType::GrayscaleAlpha,
        png::ColorType::Rgba => ColorType::Rgba,
    };
    Ok(PngImage { width: info.width, height: info.height, color_type, pixels })
}

/// Writes a PNG file with `png::Encoder::write_header` and `png::Writer::write_image_data`; the
/// end of the file is written when the writer is dropped.
///
/// For grayscale and RGB samples of one byte each, as many as the size of the image asks for, this
/// fails exactly where the width or the height is zero. The file that is written depends on the
/// arguments alone, and is named by `png_bytes`. Where a row is not longer than the decoder reads,
/// the file gives back the image.
#[verifier::external_body]
fn write_frame(
    width: u32,
    height: u32,
    color: u8,
    sample_bits: u8,
    compression: Compression,
    pixels: &[u8],
) -> (res: Result<Vec<u8>, png::EncodingError>)
    requires
        sample_bits == 8,
        color == ColorType::Grayscale.spec_code() ==> pixels@.len() == width * height,
        color == ColorType::Rgb.spec_code() ==> pixels@.len() == width * height * 3,
        color == ColorType::Grayscale.spec_code() || color == ColorType::Rgb.spec_code(),
    ensures
        match res {
            Ok(file) => {
                &&& width > 0
                &&& height > 0
                &&& file@ == png_bytes(width, height, color, sample_bits, compression, pixels@)
                &&& color == ColorType::Grayscale.spec_code() && width <= MAX_ROW_BYTES
                    ==> png_frame(file@) == Some(
                    (Frame { width, height, color_type: ColorType::Grayscale, pixels: pixels@ }),
                )
                &&& color == ColorType::Rgb.spec_code() && width * 3 <= MAX_ROW_BYTES ==> png_frame(
                    file@,
                ) == Some((Frame { width, height, color_type: ColorType::Rgb, pixels: pixels@ }))
            },
            Err(_) => width == 0 || height == 0,
        },
{
    let mut file = Vec::new();
    let mut encoder = png::Encoder::new(&mut file, width, height);
    encoder.set_color(png::ColorType::from_u8(color).unwrap());
    encoder.set_depth(png::BitDepth::from_u8(sample_bits).unwrap());
    encoder.set_compression(match compression {
        Compression::Default => png::Compression::Default,
        Compression::Fast => png::Compression::Fast,
        Compression::Best => png::Compression::Best,
    });
    let mut writer = encoder.write_header()?;
    writer.write_image_data(pixels)?;
    drop(writer);
    Ok(file)
}

/// Reads a PNG file.
pub fn decode_png(file: &[u8]) -> (res: Result<PngImage, ConvertError>)
    ensures
        match png_frame(file@) {
            Some(frame) => res matches Ok(image) && image@ == frame,
            None => res matches Err(ConvertError::PngDecoding(_)),
        },
{
    match read_frame(file) {
        Ok(image) => Ok(image),
        Err(e) => Err(ConvertError::PngDecoding(e)),
    }
}

/// The PNG file that shows the given grayscale or RGB pixels, of one byte for each sample.
pub open spec fn written_png(width: u32, height: u32, color_type: ColorType, pixels: Seq<u8>) -> Seq<
    u8,
> {
    png_bytes(
        width,
        height,
        color_type.spec_code(),
        SAMPLE_BITS,
        Compression::Default,
        pixels,
    )
}

/// Writes a PNG file. This fails only where the image has no pixels.
pub fn encode_png(width: u32, height: u32, color_type: ColorType, pixels: &[u8]) -> (res: Result<
    Vec<u8>,
    ConvertError,
>)
    requires
        color_type == ColorType::Grayscale || color_type == ColorType::Rgb,
        pixels@.len() == width * height * color_type.samples(),
    ensures
        width > 0 && height > 0 ==> res is Ok,
        width == 0 || height == 0 ==> res matches Err(ConvertError::PngEncoding(_)),
        res matches Ok(file) ==> file@ == written_png(width, height, color_type, pixels@),
        res matches Ok(file) ==> width * color_type.samples() <= MAX_ROW_BYTES ==> png_frame(file@)
            == Some((Frame { width, height, color_type, pixels: pixels@ })),
{
    match write_frame(
        width,
        height,
        color_type.code(),
        SAMPLE_BITS,
        Compression::Default,
        pixels,
    ) {
        Ok(file) => Ok(file),
        Err(e) => Err(ConvertError::PngEncoding(e)),
    }
}

} // verus!
