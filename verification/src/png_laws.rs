//! What is asked of a PNG file.

use crate::convert::is_png_of;
use crate::png_file::{png_bytes, png_frame, written_png, ColorType, Compression, Frame, PngImage};
use vstd::prelude::*;

verus! {

/// The PNG file of an image has its size, one byte for each sample, the number that PNG gives to
/// its color type, and the default compression.
pub proof fn law_png_files(width: u32, height: u32, pixels: Seq<u8>)
    ensures
        written_png(width, height, ColorType::Grayscale, pixels) == png_bytes(
            width,
            height,
            0,
            8,
            Compression::Default,
            pixels,
        ),
        written_png(width, height, ColorType::Rgb, pixels) == png_bytes(
            width,
            height,
            2,
            8,
            Compression::Default,
            pixels,
        ),
{
}

/// The samples of a pixel, and the number of a color type.
pub proof fn law_color_types()
    ensures
        ColorType::Grayscale.samples() == 1,
        ColorType::Rgb.samples() == 3,
        ColorType::Indexed.samples() == 1,
        ColorType::GrayscaleAlpha.samples() == 2,
        ColorType::Rgba.samples() == 4,
        ColorType::Grayscale.spec_code() == 0,
        ColorType::Rgb.spec_code() == 2,
        ColorType::Indexed.spec_code() == 3,
        ColorType::GrayscaleAlpha.spec_code() == 4,
        ColorType::Rgba.spec_code() == 6,
{
}

/// The PNG file of an image is the one that is written for it, and gives the image back where a row
/// has at most 64 MiB.
pub proof fn law_png_of(
    file: Seq<u8>,
    width: u32,
    height: u32,
    color_type: ColorType,
    pixels: Seq<u8>,
)
    requires
        is_png_of(file, width, height, color_type, pixels),
    ensures
        file == written_png(width, height, color_type, pixels),
        width * color_type.samples() <= 67108864 ==> png_frame(file) == Some(
            (Frame { width, height, color_type, pixels }),
        ),
{
}

/// What an image shows are its own size, colors and samples.
pub proof fn law_image_view(image: PngImage)
    ensures
        image@ == (Frame {
            width: image.width,
            height: image.height,
            color_type: image.color_type,
            pixels: image.pixels@,
        }),
{
}

} // verus!
