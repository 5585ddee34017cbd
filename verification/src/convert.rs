//! Conversion of whole files.

use crate::error::ConvertError;
use crate::gdm_decode::{
    decode_gdm, decoded_gdm, gdm_decodable, header_accepted, header_refused, layout, lemma_sizes,
    scan_file, GdmImage, Scan,
};
use crate::gdm_encode::{encode_gdm, encoded_gdm, gdm_encodable, is_gdm_encodable, valid_side};
use crate::grle::{
    decode_grle, decoded_grle, encode_grle, encoded_grle, gray_pixels, grle_decodable,
    grle_encodable, grle_height, grle_width, is_grle, is_grle_encodable, sides_fit, GrleImage,
};
use crate::layer::LayerParams;
use crate::png_file::{
    decode_png, encode_png, png_frame, supported_color, written_png, ColorType, Frame, PngImage,
    MAX_ROW_BYTES,
};
use vstd::prelude::*;

verus! {

/// An image that was converted.
#[derive(Debug)]
pub struct Converted {
    /// The size of the image.
    pub width: u32,
    pub height: u32,
    /// The file that the image was converted to.
    pub file: Vec<u8>,
}

/// Whether `file` is the PNG file of the given pixels. Where a row is not longer than a decoder
/// reads, reading the file gives these pixels.
pub open spec fn is_png_of(
    file: Seq<u8>,
    width: u32,
    height: u32,
    color_type: ColorType,
    pixels: Seq<u8>,
) -> bool {
    &&& file == written_png(width, height, color_type, pixels)
    &&& width * color_type.samples() <= MAX_ROW_BYTES ==> png_frame(file) == Some(
        (Frame { width, height, color_type, pixels }),
    )
}

/// Converts a GRLE file to a grayscale PNG file.
pub fn convert_grle_to_png(data: &[u8]) -> (res: Result<Converted, ConvertError>)
    requires
        grle_decodable(data@),
    ensures
        if !is_grle(data@) {
            res matches Err(ConvertError::NotGrle)
        } else if grle_width(data@) == 0 || grle_height(data@) == 0 {
            res matches Err(ConvertError::PngEncoding(_))
        } else {
            res matches Ok(converted) && converted.width == grle_width(data@) && converted.height
                == grle_height(data@) && is_png_of(
                converted.file@,
                converted.width,
                converted.height,
                ColorType::Grayscale,
                decoded_grle(data@),
            )
        },
{
    let image: GrleImage = match decode_grle(data) {
        Ok(image) => image,
        Err(e) => {
            return Err(e);
        },
    };
    let width: u32 = image.width as u32;
    let height: u32 = image.height as u32;
    match encode_png(width, height, ColorType::Grayscale, image.pixels.as_slice()) {
        Ok(file) => Ok(Converted { width, height, file }),
        Err(e) => Err(e),
    }
}

/// Converts a GDM file to a PNG file, RGB where its pixels have more than eight channels and
/// grayscale where they have not. Returns with it the number of bytes that were read.
pub fn convert_gdm_to_png(data: &[u8]) -> (res: Result<(Converted, usize), ConvertError>)
    requires
        gdm_decodable(data@),
    ensures
        match res {
            Ok((converted, consumed)) => {
                &&& header_accepted(data@)
                &&& scan_file(data@) == Scan::Complete(consumed as int)
                &&& converted.width == layout(data@).side()
                &&& converted.height == layout(data@).side()
                &&& is_png_of(
                    converted.file@,
                    converted.width,
                    converted.height,
                    if layout(data@).channels > 8 {
                        ColorType::Rgb
                    } else {
                        ColorType::Grayscale
                    },
                    decoded_gdm(data@),
                )
            },
            Err(error) => {
                ||| !header_accepted(data@) && header_refused(data@, error)
                ||| header_accepted(data@) && scan_file(data@) == Scan::Truncated
                    && error is UnexpectedEnd
            },
        },
{
    let image: GdmImage = match decode_gdm(data) {
        Ok(image) => image,
        Err(e) => {
            return Err(e);
        },
    };
    let side: usize = image.side;
    proof {
        lemma_sizes(layout(data@), data@);
        assert(side <= u32::MAX) by (nonlinear_arith)
            requires
                side * side <= 0x7fff_ffff_ffff_ffff,
        ;
    }
    let color_type: ColorType = if image.rgb {
        ColorType::Rgb
    } else {
        ColorType::Grayscale
    };
    match encode_png(side as u32, side as u32, color_type, image.pixels.as_slice()) {
        Ok(file) => Ok((Converted { width: side as u32, height: side as u32, file }, image.consumed)),
        Err(e) => Err(e),
    }
}

/// Converts a PNG file to a GRLE file. A PNG file that lacks pixels is refused.
pub fn convert_png_to_grle(file: &[u8]) -> (res: Result<Converted, ConvertError>)
    ensures
        match png_frame(file@) {
            None => res matches Err(ConvertError::PngDecoding(_)),
            Some(frame) => if !grle_encodable(frame) {
                res matches Err(ConvertError::Undefined)
            } else if !sides_fit(frame) {
                res matches Err(ConvertError::NotMultipleOf256 { width, height }) && width
                    == frame.width && height == frame.height
            } else if !supported_color(frame.color_type) {
                res matches Err(ConvertError::UnsupportedColorType)
            } else {
                res matches Ok(converted) && converted.width == frame.width && converted.height
                    == frame.height && converted.file@ == encoded_grle(
                    frame.width,
                    frame.height,
                    gray_pixels(frame),
                )
            },
        },
{
    let image: PngImage = match decode_png(file) {
        Ok(image) => image,
        Err(e) => {
            return Err(e);
        },
    };
    if !is_grle_encodable(&image) {
        return Err(ConvertError::Undefined);
    }
    match encode_grle(&image) {
        Ok(file) => Ok(Converted { width: image.width, height: image.height, file }),
        Err(e) => Err(e),
    }
}

/// Converts a PNG file to a GDM file. A PNG file that lacks pixels, and a layer that no GDM file
/// can store, are refused.
pub fn convert_png_to_gdm(file: &[u8], params: &LayerParams) -> (res: Result<
    Converted,
    ConvertError,
>)
    ensures
        match png_frame(file@) {
            None => res matches Err(ConvertError::PngDecoding(_)),
            Some(frame) => if !gdm_encodable(frame, *params) {
                res matches Err(ConvertError::Undefined)
            } else if frame.width != frame.height {
                res matches Err(ConvertError::NotSquare)
            } else if !valid_side(frame.width as int) {
                res matches Err(ConvertError::NotPowerOfTwo(side)) && side == frame.width
            } else if !supported_color(frame.color_type) {
                res matches Err(ConvertError::UnsupportedColorType)
            } else {
                res matches Ok(converted) && converted.width == frame.width && converted.height
                    == frame.height && converted.file@ == encoded_gdm(frame, *params)
            },
        },
{
    let image: PngImage = match decode_png(file) {
        Ok(image) => image,
        Err(e) => {
            return Err(e);
        },
    };
    if !is_gdm_encodable(&image, params) {
        return Err(ConvertError::Undefined);
    }
    match encode_gdm(&image, params) {
        Ok(file) => Ok(Converted { width: image.width, height: image.height, file }),
        Err(e) => Err(e),
    }
}

} // verus!
