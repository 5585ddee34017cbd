//! Why a conversion fails.

use vstd::prelude::*;

verus! {

/// The error type of `png::Decoder` and `png::Reader`, which is carried along unread.
#[verifier::external_type_specification]
#[verifier::external_body]
pub struct ExDecodingError(png::DecodingError);

/// The error type of `png::Encoder` and `png::Writer`, which is carried along unread.
#[verifier::external_type_specification]
#[verifier::external_body]
pub struct ExEncodingError(png::EncodingError);

/// Why a conversion fails.
#[derive(Debug)]
pub enum ConvertError {
    /// The file does not start as a GRLE file does.
    NotGrle,
    /// The sides of a GRLE image are multiples of 256.
    NotMultipleOf256 { width: usize, height: usize },
    /// The image is neither grayscale nor RGB nor RGBA.
    UnsupportedColorType,
    /// The file is shorter than the header of a GDM file.
    TooSmall,
    /// The file does not start as a GDM file does.
    NotGdm,
    /// The version of the GDM file is not 0.
    UnsupportedVersion(u32),
    /// The GDM file ends before its last block.
    UnexpectedEnd,
    /// A GDM image is square.
    NotSquare,
    /// The side of a GDM image is a power of two, and at least 32.
    NotPowerOfTwo(usize),
    /// The image has no meaning for the conversion: it lacks pixels, or the layer has channels
    /// that no conversion can store.
    Undefined,
    /// The PNG file cannot be read.
    PngDecoding(png::DecodingError),
    /// The PNG file cannot be written.
    PngEncoding(png::EncodingError),
}

} // verus!
