//! GRLE files.

use crate::bytes::{push_u16_le, read_u16_le, u16_at, u16_le};
use crate::error::ConvertError;
use crate::png_file::{supported_color, ColorType, Frame, PngImage};
use crate::rle::{decode_grle_rle, decoded_rle, encode_grle_rle, encoded_rle};
use crate::rle_laws::{ends_alone, law_rle_read_back};
use vstd::prelude::*;

verus! {

/// The length of the header.
pub const HEADER_LEN: usize = 20;

/// Whether a file starts as a GRLE file does.
pub open spec fn is_grle(data: Seq<u8>) -> bool {
    data[0] == 0x47 && data[1] == 0x52 && data[2] == 0x4c && data[3] == 0x45
}

/// The width that the header gives.
pub open spec fn grle_width(data: Seq<u8>) -> int {
    256 * u16_at(data, 6)
}

/// The height that the header gives.
pub open spec fn grle_height(data: Seq<u8>) -> int {
    256 * u16_at(data, 10)
}

/// Whether `decode_grle` is defined: the file has room for the letters of the format and, where it
/// starts with them, for a header, and the image fits in memory.
pub open spec fn grle_decodable(data: Seq<u8>) -> bool {
    &&& data.len() >= 4
    &&& is_grle(data) ==> data.len() >= HEADER_LEN && grle_width(data) * grle_height(data)
        <= isize::MAX
}

/// The pixels of the image that a file shows.
pub open spec fn decoded_grle(data: Seq<u8>) -> Seq<u8> {
    decoded_rle(
        data.skip(HEADER_LEN as int),
        (grle_width(data) * grle_height(data)) as nat,
    )
}

/// The image that a GRLE file shows.
#[derive(Debug)]
pub struct GrleImage {
    pub version: u16,
    pub width: usize,
    pub height: usize,
    pub pixels: Vec<u8>,
}

/// Whether `decode_grle` is defined on a file.
pub fn is_grle_decodable(data: &[u8]) -> (decodable: bool)
    ensures
        decodable == grle_decodable(data@),
{
    if data.len() < 4 {
        return false;
    }
    if data[0] != 0x47 || data[1] != 0x52 || data[2] != 0x4c || data[3] != 0x45 {
        return true;
    }
    if data.len() < HEADER_LEN {
        return false;
    }
    let width: usize = read_u16_le(data, 6) as usize * 256;
    let height: usize = read_u16_le(data, 10) as usize * 256;
    match width.checked_mul(height) {
        Some(size) => size <= isize::MAX as usize,
        None => false,
    }
}

/// Expands a GRLE file to the image that it shows.
pub fn decode_grle(data: &[u8]) -> (res: Result<GrleImage, ConvertError>)
    requires
        grle_decodable(data@),
    ensures
        if is_grle(data@) {
            res matches Ok(image) && image.version == u16_at(data@, 4) && image.width == grle_width(
                data@,
            ) && image.height == grle_height(data@) && image.pixels@ == decoded_grle(data@)
        } else {
            res matches Err(ConvertError::NotGrle)
        },
        res is Ok <==> data@[0] == 0x47 && data@[1] == 0x52 && data@[2] == 0x4c && data@[3] == 0x45,
        res matches Ok(image) ==> {
            &&& image.version == data@[4] + 256 * data@[5]
            &&& image.width == 256 * (data@[6] + 256 * data@[7])
            &&& image.height == 256 * (data@[10] + 256 * data@[11])
            &&& image.pixels@ == decoded_rle(data@.skip(20), (image.width * image.height) as nat)
        },
{
    if data[0] != 0x47 || data[1] != 0x52 || data[2] != 0x4c || data[3] != 0x45 {
        return Err(ConvertError::NotGrle);
    }
    let version: u16 = read_u16_le(data, 4);
    let width: usize = read_u16_le(data, 6) as usize * 256;
    let height: usize = read_u16_le(data, 10) as usize * 256;
    let compressed: &[u8] = &data[HEADER_LEN..data.len()];
    assert(compressed@ =~= data@.skip(HEADER_LEN as int));
    let pixels: Vec<u8> = decode_grle_rle(compressed, width * height);
    Ok(GrleImage { version, width, height, pixels })
}

/// The gray value of each pixel of a frame: its only sample, or the first of several.
pub open spec fn gray_pixels(frame: Frame) -> Seq<u8> {
    let p = frame.pixels;
    match frame.color_type {
        ColorType::Grayscale => p.take(frame.width * frame.height),
        ColorType::Rgb => Seq::new((p.len() + 2) / 3, |i: int| p[3 * i]),
        ColorType::Rgba => Seq::new((p.len() + 3) / 4, |i: int| p[4 * i]),
        _ => Seq::empty(),
    }
}

/// Whether the sides of a frame are multiples of 256.
pub open spec fn sides_fit(frame: Frame) -> bool {
    frame.width % 256 == 0 && frame.height % 256 == 0
}

/// Whether `encode_grle` is defined: a frame that is not refused has its pixels.
pub open spec fn grle_encodable(frame: Frame) -> bool {
    sides_fit(frame) && supported_color(frame.color_type) ==> {
        &&& frame.width * frame.height <= isize::MAX
        &&& frame.color_type == ColorType::Grayscale ==> frame.width * frame.height
            <= frame.pixels.len()
    }
}

/// The header of a GRLE file, for compressed data of the given length.
pub open spec fn grle_header(width: u32, height: u32, compressed_len: int) -> Seq<u8> {
    let stored = compressed_len - 1;
    seq![0x47u8, 0x52, 0x4c, 0x45] + u16_le(1) + u16_le((width / 256 % 65536) as u16) + seq![
        0u8,
        0u8,
    ] + u16_le((height / 256 % 65536) as u16) + u16_le(256) + seq![
        0u8,
        0u8,
        0u8,
        (stored % 256) as u8,
        (stored / 256 % 256) as u8,
        (stored / 65536 % 256) as u8,
    ]
}

/// The GRLE file of an image.
pub open spec fn encoded_grle(width: u32, height: u32, pixels: Seq<u8>) -> Seq<u8> {
    let compressed = encoded_rle(pixels);
    grle_header(width, height, compressed.len() as int) + compressed
}

/// Whether `encode_grle` is defined on an image.
pub fn is_grle_encodable(image: &PngImage) -> (encodable: bool)
    ensures
        encodable == grle_encodable(image@),
{
    if image.width % 256 != 0 || image.height % 256 != 0 {
        return true;
    }
    let fits: bool = match (image.width as usize).checked_mul(image.height as usize) {
        Some(count) => count <= isize::MAX as usize,
        None => false,
    };
    match image.color_type {
        ColorType::Grayscale => fits && image.width as usize * image.height as usize
            <= image.pixels.len(),
        ColorType::Rgb => fits,
        ColorType::Rgba => fits,
        _ => true,
    }
}

fn to_grayscale(image: &PngImage) -> (gray: Vec<u8>)
    requires
        supported_color(image.color_type),
        image.color_type == ColorType::Grayscale ==> image.width * image.height
            <= image.pixels@.len(),
    ensures
        gray@ == gray_pixels(image@),
{
    let mut gray: Vec<u8> = Vec::new();
    let len: usize = image.pixels.len();
    let mut i: usize = 0;
    match image.color_type {
        ColorType::Grayscale => {
            let count: usize = image.width as usize * image.height as usize;
            while i < count
                invariant
                    i <= count <= image.pixels@.len(),
                    gray@ == image.pixels@.take(i as int),
                decreases count - i,
            {
                gray.push(image.pixels[i]);
                assert(gray@ =~= image.pixels@.take(i + 1));
                i = i + 1;
            }
        },
        ColorType::Rgb => {
            let count: usize = len / 3 + (if len % 3 > 0 {
                1
            } else {
                0
            });
            while i < count
                invariant
                    i <= count,
                    count == (len + 2) / 3,
                    len == image.pixels@.len(),
                    gray@ == Seq::new(i as nat, |j: int| image.pixels@[3 * j]),
                decreases count - i,
            {
                gray.push(image.pixels[3 * i]);
                i = i + 1;
                assert(gray@ =~= Seq::new(i as nat, |j: int| image.pixels@[3 * j]));
            }
        },
        _ => {
            let count: usize = len / 4 + (if len % 4 > 0 {
                1
            } else {
                0
            });
            while i < count
                invariant
                    i <= count,
                    count == (len + 3) / 4,
                    len == image.pixels@.len(),
                    gray@ == Seq::new(i as nat, |j: int| image.pixels@[4 * j]),
                decreases count - i,
            {
                gray.push(image.pixels[4 * i]);
                i = i + 1;
                assert(gray@ =~= Seq::new(i as nat, |j: int| image.pixels@[4 * j]));
            }
        },
    }
    assert(gray@ =~= gray_pixels(image@));
    gray
}

/// Compresses an image to a GRLE file.
pub fn encode_grle(image: &PngImage) -> (res: Result<Vec<u8>, ConvertError>)
    requires
        grle_encodable(image@),
    ensures
        if !sides_fit(image@) {
            res matches Err(ConvertError::NotMultipleOf256 { width, height }) && width
                == image.width && height == image.height
        } else if !supported_color(image.color_type) {
            res matches Err(ConvertError::UnsupportedColorType)
        } else {
            res matches Ok(file) && file@ == encoded_grle(
                image.width,
                image.height,
                gray_pixels(image@),
            )
        },
        res is Ok <==> image.width % 256 == 0 && image.height % 256 == 0 && (image.color_type
            == ColorType::Grayscale || image.color_type == ColorType::Rgb || image.color_type
            == ColorType::Rgba),
        res matches Ok(file) ==> file@.skip(20) == encoded_rle(
            match image.color_type {
                ColorType::Rgb => Seq::new(
                    (image.pixels@.len() + 2) / 3,
                    |i: int| image.pixels@[3 * i],
                ),
                ColorType::Rgba => Seq::new(
                    (image.pixels@.len() + 3) / 4,
                    |i: int| image.pixels@[4 * i],
                ),
                _ => image.pixels@.take(image.width * image.height),
            },
        ),
{
    if image.width % 256 != 0 || image.height % 256 != 0 {
        return Err(
            ConvertError::NotMultipleOf256 {
                width: image.width as usize,
                height: image.height as usize,
            },
        );
    }
    match image.color_type {
        ColorType::Grayscale => {},
        ColorType::Rgb => {},
        ColorType::Rgba => {},
        _ => {
            return Err(ConvertError::UnsupportedColorType);
        },
    }
    let gray: Vec<u8> = to_grayscale(image);
    let mut compressed: Vec<u8> = encode_grle_rle(gray.as_slice());
    let ghost stream = compressed@;
    let mut out: Vec<u8> = vec![0x47u8, 0x52, 0x4c, 0x45];
    push_u16_le(&mut out, 1);
    push_u16_le(&mut out, (image.width / 256 % 65536) as u16);
    out.push(0);
    out.push(0);
    push_u16_le(&mut out, (image.height / 256 % 65536) as u16);
    push_u16_le(&mut out, 256);
    out.push(0);
    out.push(0);
    let stored: usize = compressed.len() - 1;
    out.push(0);
    out.push((stored % 256) as u8);
    out.push((stored / 256 % 256) as u8);
    out.push((stored / 65536 % 256) as u8);
    assert(out@ =~= grle_header(image.width, image.height, stream.len() as int));
    out.append(&mut compressed);
    assert(out@.skip(20) =~= stream);
    Ok(out)
}

/// Whether a frame gives a GRLE file that shows all of it: the header has room for its sides, and
/// it has as many gray values as pixels.
pub open spec fn grle_storable(frame: Frame) -> bool {
    &&& sides_fit(frame)
    &&& supported_color(frame.color_type)
    &&& frame.width < 16777216
    &&& frame.height < 16777216
    &&& frame.width * frame.height <= isize::MAX
    &&& gray_pixels(frame).len() == frame.width * frame.height
}

/// The pixels that reading the GRLE file of a frame gives: its gray values, except that a last one
/// that differs from the one before it is read as zero.
pub open spec fn read_back_gray(frame: Frame) -> Seq<u8> {
    let gray = gray_pixels(frame);
    if ends_alone(gray) {
        gray.update(gray.len() - 1, 0u8)
    } else {
        gray
    }
}

/// The GRLE file of an image can be read, and gives back its size and its gray values, except that
/// a last value that differs from the one before it comes back as zero.
pub proof fn law_grle_read_back(frame: Frame)
    requires
        grle_storable(frame),
    ensures
        ({
            let data = encoded_grle(frame.width, frame.height, gray_pixels(frame));
            &&& is_grle(data)
            &&& grle_decodable(data)
            &&& grle_width(data) == frame.width
            &&& grle_height(data) == frame.height
            &&& decoded_grle(data) == read_back_gray(frame)
        }),
{
    let gray = gray_pixels(frame);
    let compressed = encoded_rle(gray);
    let header = grle_header(frame.width, frame.height, compressed.len() as int);
    let data = header + compressed;
    assert(header.len() == 20);
    assert(forall|i: int| 0 <= i < 20 ==> data[i] == #[trigger] header[i]);
    assert(data[0] == header[0] && data[1] == header[1] && data[2] == header[2] && data[3]
        == header[3]);
    assert(data[6] == header[6] && data[7] == header[7] && data[10] == header[10] && data[11]
        == header[11]);
    assert(data.skip(20) =~= compressed);
    law_rle_read_back(gray);
}

/// Reading the GRLE file of an image and writing it again gives the same file, unless its last gray
/// value differs from the one before it and is not zero.
pub proof fn law_grle_stable(frame: Frame)
    requires
        grle_storable(frame),
        ends_alone(gray_pixels(frame)) ==> gray_pixels(frame).last() == 0,
    ensures
        ({
            let data = encoded_grle(frame.width, frame.height, gray_pixels(frame));
            let back = Frame {
                width: frame.width,
                height: frame.height,
                color_type: ColorType::Grayscale,
                pixels: decoded_grle(data),
            };
            &&& decoded_grle(data) == gray_pixels(frame)
            &&& grle_storable(back)
            &&& encoded_grle(back.width, back.height, gray_pixels(back)) == data
        }),
{
    law_grle_read_back(frame);
    let gray = gray_pixels(frame);
    assert(read_back_gray(frame) =~= gray);
    assert(gray.take(frame.width * frame.height) =~= gray);
}

} // verus!
