//! What converting there and back gives.

use crate::convert::is_png_of;
use crate::gdm_decode::{
    decoded_gdm, gdm_decodable, header_accepted, layout, lemma_sizes, pixel_value, scan_file,
    value_byte, Scan,
};
use crate::gdm_encode::{channel_values, encoded_gdm, gdm_encodable, valid_side};
use crate::gdm_laws::{
    gdm_exact, gdm_storable, law_gdm_round_trip, law_gdm_stable, layer_value, read_back_frame,
};
use crate::grle::{
    decoded_grle, encoded_grle, gray_pixels, grle_decodable, grle_encodable, grle_height,
    grle_storable, grle_width, is_grle, law_grle_read_back, law_grle_stable, read_back_gray,
    sides_fit,
};
use crate::layer::LayerParams;
use crate::png_file::{png_frame, supported_color, ColorType, Frame, MAX_ROW_BYTES};
use crate::rle_laws::ends_alone;
use vstd::arithmetic::power2::pow2;
use vstd::prelude::*;

verus! {

/// The image that a GDM file is converted to.
pub open spec fn gdm_frame(data: Seq<u8>) -> Frame {
    Frame {
        width: layout(data).side() as u32,
        height: layout(data).side() as u32,
        color_type: if layout(data).channels > 8 {
            ColorType::Rgb
        } else {
            ColorType::Grayscale
        },
        pixels: decoded_gdm(data),
    }
}

/// The image that a GRLE file is converted to.
pub open spec fn grle_frame(data: Seq<u8>) -> Frame {
    Frame {
        width: grle_width(data) as u32,
        height: grle_height(data) as u32,
        color_type: ColorType::Grayscale,
        pixels: decoded_grle(data),
    }
}

/// A GDM file that was written from an image, converted to a PNG file and from there with the same
/// parameters, gives the same GDM file again. This asks that nothing is lost in a block.
pub proof fn law_gdm_there_and_back(frame: Frame, params: LayerParams, png: Seq<u8>)
    requires
        gdm_storable(frame, params),
        gdm_exact(frame, params),
        ({
            let shown = gdm_frame(encoded_gdm(frame, params));
            &&& is_png_of(png, shown.width, shown.height, shown.color_type, shown.pixels)
            &&& shown.width * shown.color_type.samples() <= MAX_ROW_BYTES
        }),
    ensures
        ({
            let shown = gdm_frame(encoded_gdm(frame, params));
            &&& png_frame(png) == Some(shown)
            &&& gdm_encodable(shown, params)
            &&& shown.width == shown.height
            &&& valid_side(shown.width as int)
            &&& supported_color(shown.color_type)
            &&& encoded_gdm(shown, params) == encoded_gdm(frame, params)
        }),
{
    law_gdm_round_trip(frame, params);
    law_gdm_stable(frame, params);
    assert(gdm_frame(encoded_gdm(frame, params)) == read_back_frame(frame, params));
}

/// A GRLE file that was written from an image, converted to a PNG file and from there, gives the
/// same GRLE file again, unless the last gray value of the image differs from the one before it and
/// is not zero.
pub proof fn law_grle_there_and_back(frame: Frame, png: Seq<u8>)
    requires
        grle_storable(frame),
        ends_alone(gray_pixels(frame)) ==> gray_pixels(frame).last() == 0,
        ({
            let shown = grle_frame(encoded_grle(frame.width, frame.height, gray_pixels(frame)));
            &&& is_png_of(png, shown.width, shown.height, shown.color_type, shown.pixels)
            &&& shown.width * shown.color_type.samples() <= MAX_ROW_BYTES
        }),
    ensures
        ({
            let data = encoded_grle(frame.width, frame.height, gray_pixels(frame));
            let shown = grle_frame(data);
            &&& png_frame(png) == Some(shown)
            &&& grle_encodable(shown)
            &&& sides_fit(shown)
            &&& supported_color(shown.color_type)
            &&& encoded_grle(shown.width, shown.height, gray_pixels(shown)) == data
        }),
{
    law_grle_read_back(frame);
    law_grle_stable(frame);
}

/// What a PNG file holds of the value of a pixel of a GDM file: its least significant bytes.
pub open spec fn shown_value(data: Seq<u8>, px: int) -> int {
    if layout(data).channels > 8 {
        pixel_value(data, px) as int % 16777216
    } else {
        pixel_value(data, px) as int % 256
    }
}

proof fn lemma_shown_value(data: Seq<u8>, px: int)
    requires
        layout(data).side() <= u32::MAX,
        0 <= px < layout(data).side() * layout(data).side(),
    ensures
        px < channel_values(gdm_frame(data)).len(),
        channel_values(gdm_frame(data))[px] == shown_value(data, px),
{
    let l = layout(data);
    let shown = gdm_frame(data);
    let count = l.side() * l.side();
    let v = pixel_value(data, px);
    if l.channels > 8 {
        assert(shown.pixels.len() == count * 3);
        assert(shown.pixels[3 * px] == value_byte(v, 0)) by {
            assert((3 * px) / 3 == px && (3 * px) % 3 == 0);
        }
        assert(shown.pixels[3 * px + 1] == value_byte(v, 1)) by {
            assert((3 * px + 1) / 3 == px && (3 * px + 1) % 3 == 1);
        }
        assert(shown.pixels[3 * px + 2] == value_byte(v, 2)) by {
            assert((3 * px + 2) / 3 == px && (3 * px + 2) % 3 == 2);
        }
        assert(v % 256 + 256 * (v / 256 % 256) + 65536 * (v / 65536 % 256) == v as int % 16777216);
    } else {
        assert(px / 1 == px && px % 1 == 0);
        assert(shown.pixels.len() == count * 1);
        assert(shown.pixels[px] == value_byte(v, 0));
    }
}

/// Any GDM file, converted to a PNG file and from there with as many channels, gives a GDM file in
/// which every pixel has the bits of these channels that the PNG file holds, and which has the same
/// size. This asks that nothing is lost in a block.
pub proof fn law_gdm_converted_back(data: Seq<u8>, params: LayerParams)
    requires
        gdm_decodable(data),
        header_accepted(data),
        layout(data).channels == params.num_channels,
        gdm_storable(gdm_frame(data), params),
        gdm_exact(gdm_frame(data), params),
    ensures
        ({
            let again = encoded_gdm(gdm_frame(data), params);
            &&& gdm_decodable(again)
            &&& header_accepted(again)
            &&& scan_file(again) == Scan::Complete(again.len() as int)
            &&& layout(again).side() == layout(data).side()
            &&& forall|px: int|
                0 <= px < layout(data).side() * layout(data).side() ==> #[trigger] pixel_value(
                    again,
                    px,
                ) == shown_value(data, px) % pow2(params.num_channels as nat) as int
        }),
{
    let shown = gdm_frame(data);
    let again = encoded_gdm(shown, params);
    let side = layout(data).side();
    lemma_sizes(layout(data), data);
    assert(side <= u32::MAX) by (nonlinear_arith)
        requires
            side * side <= 0x7fff_ffff_ffff_ffff,
    ;
    law_gdm_round_trip(shown, params);
    assert forall|px: int| 0 <= px < side * side implies #[trigger] pixel_value(again, px)
        == shown_value(data, px) % pow2(params.num_channels as nat) as int by {
        lemma_shown_value(data, px);
        assert(pixel_value(again, px) == layer_value(shown, params, px));
    }
}

/// Any GRLE file, converted to a PNG file and from there, gives a GRLE file that shows the same
/// image, except that a last pixel which differs from the one before it becomes zero.
pub proof fn law_grle_converted_back(data: Seq<u8>)
    requires
        grle_decodable(data),
        is_grle(data),
    ensures
        ({
            let again = encoded_grle(
                grle_width(data) as u32,
                grle_height(data) as u32,
                gray_pixels(grle_frame(data)),
            );
            &&& is_grle(again)
            &&& grle_decodable(again)
            &&& grle_width(again) == grle_width(data)
            &&& grle_height(again) == grle_height(data)
            &&& decoded_grle(again) == (if ends_alone(decoded_grle(data)) {
                decoded_grle(data).update(decoded_grle(data).len() - 1, 0u8)
            } else {
                decoded_grle(data)
            })
        }),
{
    let shown = grle_frame(data);
    assert(decoded_grle(data).len() == grle_width(data) * grle_height(data));
    assert(gray_pixels(shown) =~= decoded_grle(data));
    law_grle_read_back(shown);
    assert(read_back_gray(shown) == decoded_grle(
        encoded_grle(shown.width, shown.height, gray_pixels(shown)),
    ));
}

} // verus!
