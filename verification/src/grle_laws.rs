//! What the bytes of a GRLE file say.

use crate::grle::{
    decoded_grle, encoded_grle, gray_pixels, grle_decodable, grle_encodable, grle_header, grle_height,
    grle_width, is_grle, law_grle_read_back, sides_fit,
};
use crate::png_file::{supported_color, Frame};
use crate::rle::{decoded_rle, encoded_rle};
use vstd::prelude::*;

verus! {

/// A GRLE file starts with the letters of its format. Its sides are stored in units of 256 pixels,
/// as two bytes each, and its pixels are expanded from what follows the first 20 bytes.
pub proof fn law_grle_fields(data: Seq<u8>)
    requires
        data.len() >= 4,
    ensures
        is_grle(data) <==> data.take(4) == seq![0x47u8, 0x52u8, 0x4cu8, 0x45u8],
        grle_width(data) == 256 * data[6] + 65536 * data[7],
        grle_height(data) == 256 * data[10] + 65536 * data[11],
        decoded_grle(data) == decoded_rle(
            data.skip(20),
            ((256 * data[6] + 65536 * data[7]) * (256 * data[10] + 65536 * data[11])) as nat,
        ),
        grle_decodable(data) <==> data.take(4) != seq![0x47u8, 0x52u8, 0x4cu8, 0x45u8] || (
        data.len() >= 20 && (256 * data[6] + 65536 * data[7]) * (256 * data[10] + 65536 * data[11])
            <= isize::MAX),
{
    let letters = seq![0x47u8, 0x52u8, 0x4cu8, 0x45u8];
    if is_grle(data) {
        assert(data.take(4) =~= letters);
    }
    if data.take(4) == letters {
        assert(data.take(4)[0] == letters[0] && data.take(4)[1] == letters[1] && data.take(4)[2]
            == letters[2] && data.take(4)[3] == letters[3]);
    }
}

/// A file of fewer than four bytes cannot be told from others.
pub proof fn law_grle_needs_letters(data: Seq<u8>)
    requires
        data.len() < 4,
    ensures
        !grle_decodable(data),
{
}

/// The bytes of a GRLE file: the letters, the version, the sides in units of 256 pixels, a field
/// that holds 256, the length of the compressed pixels less one, and these pixels.
pub proof fn law_grle_bytes(width: u32, height: u32, pixels: Seq<u8>)
    ensures
        ({
            let file = encoded_grle(width, height, pixels);
            let stored = encoded_rle(pixels).len() - 1;
            &&& file.len() == 20 + encoded_rle(pixels).len()
            &&& file.take(6) == seq![0x47u8, 0x52u8, 0x4cu8, 0x45u8, 1u8, 0u8]
            &&& file[6] + 256 * file[7] == width as int / 256 % 65536
            &&& file[8] == 0 && file[9] == 0
            &&& file[10] + 256 * file[11] == height as int / 256 % 65536
            &&& file.subrange(12, 17) == seq![0u8, 1u8, 0u8, 0u8, 0u8]
            &&& file[17] + 256 * file[18] + 65536 * file[19] == stored % 16777216
            &&& file.skip(20) == encoded_rle(pixels)
        }),
{
    let file = encoded_grle(width, height, pixels);
    let stored = encoded_rle(pixels).len() - 1;
    assert(stored >= 0);
    lemma_header(width, height, stored + 1);
    let header = grle_header(width, height, stored + 1);
    assert(forall|i: int| 0 <= i < 20 ==> file[i] == #[trigger] header[i]);
    assert(file[6] == header[6] && file[7] == header[7] && file[8] == header[8] && file[9]
        == header[9] && file[10] == header[10] && file[11] == header[11]);
    assert(file[17] == header[17] && file[18] == header[18] && file[19] == header[19]);
    assert(file.take(6) =~= header.take(6));
    assert(file.subrange(12, 17) =~= header.subrange(12, 17));
    assert(file.skip(20) =~= encoded_rle(pixels));
}

proof fn lemma_header(width: u32, height: u32, len: int)
    requires
        len >= 1,
    ensures
        ({
            let h = grle_header(width, height, len);
            &&& h.len() == 20
            &&& h.take(6) == seq![0x47u8, 0x52u8, 0x4cu8, 0x45u8, 1u8, 0u8]
            &&& h.subrange(12, 17) == seq![0u8, 1u8, 0u8, 0u8, 0u8]
            &&& h[6] + 256 * h[7] == width as int / 256 % 65536
            &&& h[8] == 0 && h[9] == 0
            &&& h[10] + 256 * h[11] == height as int / 256 % 65536
            &&& h[17] + 256 * h[18] + 65536 * h[19] == (len - 1) % 16777216
        }),
{
    let h = grle_header(width, height, len);
    let w = (width / 256 % 65536) as u16;
    let t = (height / 256 % 65536) as u16;
    let stored = len - 1;
    let bytes = seq![
        0x47u8,
        0x52,
        0x4c,
        0x45,
        1,
        0,
        (w % 256) as u8,
        (w / 256) as u8,
        0,
        0,
        (t % 256) as u8,
        (t / 256) as u8,
        0,
        1,
        0,
        0,
        0,
        (stored % 256) as u8,
        (stored / 256 % 256) as u8,
        (stored / 65536 % 256) as u8,
    ];
    assert(h =~= bytes);
    assert(bytes.take(6) =~= seq![0x47u8, 0x52u8, 0x4cu8, 0x45u8, 1u8, 0u8]);
    assert(bytes.subrange(12, 17) =~= seq![0u8, 1u8, 0u8, 0u8, 0u8]);
}

/// The images that can be stored have sides that are multiples of 256, and are grayscale, RGB or
/// RGBA; they are defined where they have a pixel for every place.
pub proof fn law_grle_accepts(frame: Frame)
    ensures
        sides_fit(frame) <==> frame.width as int % 256 == 0 && frame.height as int % 256 == 0,
        supported_color(frame.color_type) <==> frame.color_type is Grayscale
            || frame.color_type is Rgb || frame.color_type is Rgba,
        grle_encodable(frame) <==> {
            ||| frame.width as int % 256 != 0
            ||| frame.height as int % 256 != 0
            ||| frame.color_type is Indexed
            ||| frame.color_type is GrayscaleAlpha
            ||| frame.width * frame.height <= isize::MAX && (frame.color_type is Grayscale
                ==> frame.width * frame.height <= frame.pixels.len())
        },
{
}

/// Of several samples of a pixel only the first counts: an RGB or RGBA image gives the same GRLE
/// file as the grayscale image of its first samples.
pub proof fn law_grle_first_samples(color: Frame, gray: Frame)
    requires
        color.color_type is Rgb || color.color_type is Rgba,
        gray.color_type is Grayscale,
        gray.width == color.width,
        gray.height == color.height,
        gray.pixels.len() == gray.width * gray.height,
        color.color_type is Rgb ==> color.pixels.len() == 3 * gray.pixels.len() && forall|i: int|
            0 <= i < gray.pixels.len() ==> #[trigger] gray.pixels[i] == color.pixels[3 * i],
        color.color_type is Rgba ==> color.pixels.len() == 4 * gray.pixels.len() && forall|i: int|
            0 <= i < gray.pixels.len() ==> #[trigger] gray.pixels[i] == color.pixels[4 * i],
    ensures
        encoded_grle(color.width, color.height, gray_pixels(color)) == encoded_grle(
            gray.width,
            gray.height,
            gray_pixels(gray),
        ),
        encoded_grle(gray.width, gray.height, gray_pixels(gray)).skip(20) == encoded_rle(gray.pixels),
{
    assert(gray_pixels(gray) =~= gray.pixels);
    assert(gray_pixels(color) =~= gray.pixels);
    law_grle_bytes(gray.width, gray.height, gray.pixels);
}

/// The GRLE file of an image shows the first sample of each of its pixels, but for a last one that
/// differs from the one before it, which becomes zero.
pub proof fn law_grle_shows_samples(frame: Frame, samples: int)
    requires
        frame.color_type is Grayscale && samples == 1 || frame.color_type is Rgb && samples == 3
            || frame.color_type is Rgba && samples == 4,
        frame.pixels.len() == samples * (frame.width * frame.height),
        frame.width as int % 256 == 0,
        frame.height as int % 256 == 0,
        frame.width < 16777216,
        frame.height < 16777216,
        frame.width * frame.height <= isize::MAX,
    ensures
        ({
            let shown = decoded_grle(encoded_grle(frame.width, frame.height, gray_pixels(frame)));
            let n = frame.width * frame.height;
            &&& shown.len() == n
            &&& forall|i: int| 0 <= i < n - 1 ==> #[trigger] shown[i] == frame.pixels[samples * i]
            &&& n > 0 ==> shown[n - 1] == (if n > 1 && frame.pixels[samples * (n - 1)]
                != frame.pixels[samples * (n - 2)] {
                0u8
            } else {
                frame.pixels[samples * (n - 1)]
            })
        }),
{
    let n = frame.width * frame.height;
    assert(gray_pixels(frame).len() == n);
    assert forall|i: int| 0 <= i < n implies #[trigger] gray_pixels(frame)[i]
        == frame.pixels[samples * i] by {}
    law_grle_read_back(frame);
    if n > 1 {
        assert(gray_pixels(frame)[n - 2] == frame.pixels[samples * (n - 2)]);
        assert(gray_pixels(frame)[n - 1] == frame.pixels[samples * (n - 1)]);
    }
}

} // verus!
