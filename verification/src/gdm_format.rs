//! What the bytes of a GDM file say.

use crate::gdm_block::{bit_width, encoded_block, lemma_bit_width_at_most};
use crate::gdm_block_format::lemma_bit_width_at_least;
use crate::gdm_encode::{
    block_values, channel_values, encoded_blocks, encoded_gdm, gdm_boundary, gdm_encodable,
    gdm_header, range_shift, range_widths, valid_side, values_complete,
};
use crate::gdm_decode::{
    gdm_decodable, header_accepted, layout, pixel_value, scan_file, Scan,
};
use crate::gdm_laws::{
    gdm_storable, law_gdm_round_trip, law_narrow_layers_are_exact, layer_value,
};
use crate::layer::LayerParams;
use crate::grid::lemma_pixel_index;
use crate::png_file::{ColorType, Frame};
use vstd::arithmetic::power2::*;
use vstd::prelude::*;

verus! {

proof fn lemma_bit_width_of_power(n: nat)
    ensures
        bit_width(pow2(n)) == n + 1,
{
    lemma_pow2_strictly_increases(n, n + 1);
    lemma_bit_width_at_most(pow2(n), n + 1);
    lemma_bit_width_at_least(pow2(n), n + 1);
}

/// The sides that can be stored are the powers of two from 32 on.
pub proof fn law_gdm_sides(side: int)
    requires
        side >= 0,
    ensures
        valid_side(side) <==> exists|n: nat| n >= 5 && side == #[trigger] pow2(n),
{
    lemma2_to64();
    if valid_side(side) {
        let n = (bit_width(side as nat) - 1) as nat;
        assert(side == pow2(n));
        if n < 5 {
            lemma_pow2_strictly_increases(n, 5);
        }
    }
    if exists|n: nat| n >= 5 && side == #[trigger] pow2(n) {
        let n = choose|n: nat| n >= 5 && side == #[trigger] pow2(n);
        lemma_bit_width_of_power(n);
        if n > 5 {
            lemma_pow2_strictly_increases(5, n);
        }
    }
}

/// The first bytes of a GDM file: the letters and the version, the binary logarithms of the side,
/// less 5, and of the side of a chunk, the most bits of a palette, the channels, the number of
/// ranges, the number for the engine, and two zeros. The channel at which the ranges meet follows
/// where there are two.
pub proof fn law_gdm_header_bytes(frame: Frame, params: LayerParams, n: nat)
    requires
        frame.width == pow2(n + 5),
    ensures
        ({
            let file = encoded_gdm(frame, params);
            let ranges: u8 = if params.compression_channels is Some {
                2
            } else {
                1
            };
            &&& n < 27
            &&& file.len() >= 16
            &&& file.take(8) == seq![0x22u8, 0x4d, 0x44, 0x46, 0, 0, 0, 0]
            &&& file[8] == n
            &&& file[9] == 5
            &&& file[10] == 2
            &&& file[11] == params.num_channels % 256
            &&& file[12] == ranges
            &&& file[13] == params.type_index_channels % 256
            &&& file[14] == 0 && file[15] == 0
            &&& params.compression_channels matches Some(cc) ==> file.len() >= 17 && file[16] == cc
                % 256
        }),
{
    let file = encoded_gdm(frame, params);
    let side = frame.width as int;
    let header = gdm_header(side, params);
    if n >= 27 {
        lemma2_to64();
        if n > 27 {
            lemma_pow2_strictly_increases(32, n + 5);
        }
    }
    lemma_bit_width_of_power(n + 5);
    assert(header.len() == 16);
    assert(forall|i: int| 0 <= i < 16 ==> file[i] == #[trigger] header[i]);
    assert(file[8] == header[8] && file[9] == header[9] && file[10] == header[10] && file[11]
        == header[11] && file[12] == header[12] && file[13] == header[13] && file[14] == header[14]
        && file[15] == header[15]);
    assert(file.take(8) =~= header.take(8));
    assert(header.take(8) =~= seq![0x22u8, 0x4d, 0x44, 0x46, 0, 0, 0, 0]);
    if let Some(cc) = params.compression_channels {
        assert(file[16] == gdm_boundary(params)[0]);
    }
}

proof fn lemma_blocks_in_a_row(values: Seq<u32>, cpd: int, widths: Seq<int>, blocks: Seq<Seq<u8>>)
    requires
        forall|n: int|
            0 <= n < blocks.len() ==> #[trigger] blocks[n] == encoded_block(
                block_values(values, cpd, widths, n),
                32,
                widths[n % (widths.len() as int)],
            ),
    ensures
        encoded_blocks(values, cpd, widths, blocks.len()) == blocks.flatten(),
    decreases blocks.len(),
{
    blocks.lemma_flatten_and_flatten_alt_are_equivalent();
    if blocks.len() > 0 {
        let less = blocks.drop_last();
        lemma_blocks_in_a_row(values, cpd, widths, less);
        less.lemma_flatten_and_flatten_alt_are_equivalent();
        assert(blocks[blocks.len() - 1] == blocks.last());
    }
}

proof fn lemma_values(frame: Frame, samples: int, values: Seq<u32>)
    requires
        frame.color_type is Grayscale && samples == 1 || frame.color_type is Rgb && samples == 3
            || frame.color_type is Rgba && samples == 4,
        frame.pixels.len() == samples * (frame.width * frame.height),
        values.len() == frame.width * frame.height,
        forall|px: int|
            0 <= px < values.len() ==> #[trigger] values[px] == frame.pixels[samples * px] + (
            if samples > 1 {
                256 * frame.pixels[samples * px + 1] + 65536 * frame.pixels[samples * px + 2]
            } else {
                0
            }),
    ensures
        channel_values(frame) == values,
        values_complete(frame) <==> frame.width * frame.height <= isize::MAX,
{
    assert(channel_values(frame).len() == values.len());
    assert(channel_values(frame) =~= values);
}

/// What follows the first bytes of a GDM file are its blocks. The chunks of 32 by 32 pixels follow
/// each other row by row, and for each of them its ranges, from the least significant. A block
/// stores what its range holds of the values of the pixels of its chunk, row by row. The first
/// sample of a pixel is the least significant byte of its value, and alpha does not count.
pub proof fn law_gdm_blocks(
    frame: Frame,
    params: LayerParams,
    samples: int,
    values: Seq<u32>,
    blocks: Seq<Seq<u8>>,
)
    requires
        frame.color_type is Grayscale && samples == 1 || frame.color_type is Rgb && samples == 3
            || frame.color_type is Rgba && samples == 4,
        frame.pixels.len() == samples * (frame.width * frame.height),
        frame.width == frame.height,
        values.len() == frame.width * frame.height,
        forall|px: int|
            0 <= px < values.len() ==> #[trigger] values[px] == frame.pixels[samples * px] + (
            if samples > 1 {
                256 * frame.pixels[samples * px + 1] + 65536 * frame.pixels[samples * px + 2]
            } else {
                0
            }),
        frame.width as int % 32 == 0,
        match params.compression_channels {
            None => {
                &&& blocks.len() == (frame.width as int / 32) * (frame.width as int / 32)
                &&& forall|n: int|
                    0 <= n < blocks.len() ==> #[trigger] blocks[n] == encoded_block(
                        Seq::new(
                            1024,
                            |k: int|
                                (values[(n / (frame.width as int / 32) * 32 + k / 32) * frame.width
                                    + (n % (frame.width as int / 32) * 32 + k % 32)] as int % pow2(
                                    params.num_channels as nat,
                                ) as int % 65536) as u16,
                        ),
                        32,
                        params.num_channels as int,
                    )
            },
            Some(cc) => {
                &&& blocks.len() == 2 * ((frame.width as int / 32) * (frame.width as int / 32))
                &&& forall|n: int|
                    0 <= n < blocks.len() ==> #[trigger] blocks[n] == (if n % 2 == 0 {
                        encoded_block(
                            Seq::new(
                                1024,
                                |k: int|
                                    (values[(n / 2 / (frame.width as int / 32) * 32 + k / 32)
                                        * frame.width + (n / 2 % (frame.width as int / 32) * 32 + k
                                        % 32)] as int % pow2(cc as nat) as int % 65536) as u16,
                            ),
                            32,
                            cc as int,
                        )
                    } else {
                        encoded_block(
                            Seq::new(
                                1024,
                                |k: int|
                                    (values[(n / 2 / (frame.width as int / 32) * 32 + k / 32)
                                        * frame.width + (n / 2 % (frame.width as int / 32) * 32 + k
                                        % 32)] as int / pow2(cc as nat) as int % pow2(
                                        (params.num_channels - cc) as nat,
                                    ) as int % 65536) as u16,
                            ),
                            32,
                            params.num_channels - cc,
                        )
                    })
            },
        },
    ensures
        encoded_gdm(frame, params).skip(
            if params.compression_channels is Some {
                17
            } else {
                16
            },
        ) == blocks.flatten(),
{
    let side = frame.width as int;
    let cpd = side / 32;
    let widths = range_widths(params);
    lemma_values(frame, samples, values);
    lemma2_to64();
    assert(32 * cpd == side);
    assert forall|n: int| 0 <= n < blocks.len() implies #[trigger] blocks[n] == encoded_block(
        block_values(values, cpd, widths, n),
        32,
        widths[n % (widths.len() as int)],
    ) by {
        let given = block_values(values, cpd, widths, n);
        match params.compression_channels {
            None => {
                assert(n % 1 == 0 && n / 1 == n);
                assert forall|k: int| 0 <= k < 1024 implies #[trigger] given[k] == (values[(n / cpd
                    * 32 + k / 32) * side + (n % cpd * 32 + k % 32)] as int % pow2(
                    params.num_channels as nat,
                ) as int % 65536) as u16 by {
                    assert(range_shift(widths, 0) == 0);
                }
                assert(given =~= Seq::new(
                    1024,
                    |k: int|
                        (values[(n / cpd * 32 + k / 32) * side + (n % cpd * 32 + k % 32)] as int
                            % pow2(params.num_channels as nat) as int % 65536) as u16,
                ));
            },
            Some(cc) => {
                assert(range_shift(widths, 0) == 0);
                assert(range_shift(widths, 1) == range_shift(widths, 0) + widths[0]);
                if n % 2 == 0 {
                    assert forall|k: int| 0 <= k < 1024 implies #[trigger] given[k] == (values[(n
                        / 2 / cpd * 32 + k / 32) * side + (n / 2 % cpd * 32 + k % 32)] as int
                        % pow2(cc as nat) as int % 65536) as u16 by {
                        let v = values[(n / 2 / cpd * 32 + k / 32) * side + (n / 2 % cpd * 32 + k
                            % 32)] as int;
                        assert(v / 1 == v);
                        assert(widths[0] == cc);
                    }
                    assert(given =~= Seq::new(
                        1024,
                        |k: int|
                            (values[(n / 2 / cpd * 32 + k / 32) * side + (n / 2 % cpd * 32 + k
                                % 32)] as int % pow2(cc as nat) as int % 65536) as u16,
                    ));
                } else {
                    assert(given =~= Seq::new(
                        1024,
                        |k: int|
                            (values[(n / 2 / cpd * 32 + k / 32) * side + (n / 2 % cpd * 32 + k
                                % 32)] as int / pow2(cc as nat) as int % pow2(
                                (params.num_channels - cc) as nat,
                            ) as int % 65536) as u16,
                    ));
                }
            },
        }
    }
    assert(cpd * cpd * 1 == cpd * cpd && cpd * cpd * 2 == 2 * (cpd * cpd)) by (nonlinear_arith);
    lemma_blocks_in_a_row(values, cpd, widths, blocks);
    let head = gdm_header(side, params) + gdm_boundary(params);
    assert(encoded_gdm(frame, params) == head + blocks.flatten());
    assert((head + blocks.flatten()).skip(head.len() as int) =~= blocks.flatten());
}

/// Alpha does not count: an RGBA image gives the same GDM file as the RGB image of its colors.
pub proof fn law_gdm_alpha_is_ignored(rgba: Frame, rgb: Frame, params: LayerParams)
    requires
        rgba.color_type is Rgba,
        rgb.color_type is Rgb,
        rgb.width == rgba.width,
        rgb.height == rgba.height,
        rgb.pixels.len() == 3 * (rgb.width * rgb.height),
        rgba.pixels.len() == 4 * (rgb.width * rgb.height),
        forall|px: int, j: int|
            0 <= px < rgb.width * rgb.height && 0 <= j < 3 ==> #[trigger] rgb.pixels[3 * px + j]
                == rgba.pixels[4 * px + j],
    ensures
        encoded_gdm(rgba, params) == encoded_gdm(rgb, params),
        gdm_encodable(rgba, params) == gdm_encodable(rgb, params),
{
    let a = channel_values(rgba);
    let b = channel_values(rgb);
    assert forall|px: int| 0 <= px < rgb.width * rgb.height implies a[px] == b[px] by {
        assert(rgb.pixels[3 * px + 0] == rgba.pixels[4 * px + 0]);
        assert(rgb.pixels[3 * px + 1] == rgba.pixels[4 * px + 1]);
        assert(rgb.pixels[3 * px + 2] == rgba.pixels[4 * px + 2]);
    }
    assert(a =~= b);
}

/// A grayscale image gives the same GDM file as the RGB image whose first samples are its own, and
/// whose other samples are zero.
pub proof fn law_gdm_gray_is_low_byte(gray: Frame, rgb: Frame, params: LayerParams)
    requires
        gray.color_type is Grayscale,
        rgb.color_type is Rgb,
        rgb.width == gray.width,
        rgb.height == gray.height,
        gray.pixels.len() == gray.width * gray.height,
        rgb.pixels.len() == 3 * gray.pixels.len(),
        forall|px: int|
            0 <= px < gray.pixels.len() ==> #[trigger] gray.pixels[px] == rgb.pixels[3 * px]
                && rgb.pixels[3 * px + 1] == 0 && rgb.pixels[3 * px + 2] == 0,
    ensures
        encoded_gdm(gray, params) == encoded_gdm(rgb, params),
{
    let a = channel_values(gray);
    let b = channel_values(rgb);
    assert forall|px: int| 0 <= px < gray.pixels.len() implies a[px] == b[px] by {
        assert(gray.pixels[px] == rgb.pixels[3 * px]);
    }
    assert(a =~= b);
}

/// An image can be converted where it is square and its side a power of two from 32 on, where it has
/// the samples of every pixel, and every further pixel too as far as it reads them, and where each
/// range has fewer than 32 channels. One that is refused for its shape or its colors is refused
/// whatever else it lacks.
pub proof fn law_gdm_accepts(frame: Frame, params: LayerParams)
    ensures
        gdm_encodable(frame, params) <==> {
            let count = frame.width * frame.height;
            let len = frame.pixels.len();
            let complete = match frame.color_type {
                ColorType::Grayscale => count <= len,
                ColorType::Rgb => len % 3 == 0 && 3 * count <= len,
                ColorType::Rgba => (len % 4 == 0 || len % 4 == 3) && 4 * count <= len + 1,
                _ => true,
            };
            let split = match params.compression_channels {
                None => 0int,
                Some(cc) => cc as int,
            };
            ||| frame.width != frame.height
            ||| frame.width > 0 && !(exists|n: nat| n >= 5 && frame.width == #[trigger] pow2(n))
            ||| {
                &&& frame.width > 0
                &&& split <= params.num_channels
                &&& {
                    ||| frame.color_type is Indexed
                    ||| frame.color_type is GrayscaleAlpha
                    ||| count <= isize::MAX && complete && split < 32 && params.num_channels - split
                        < 32
                }
            }
        },
{
    law_gdm_sides(frame.width as int);
    if valid_side(frame.width as int) {
        let n = choose|n: nat| n >= 5 && frame.width as int == #[trigger] pow2(n);
        assert(frame.width == pow2(n));
    }
    if exists|n: nat| n >= 5 && frame.width == #[trigger] pow2(n) {
        let n = choose|n: nat| n >= 5 && frame.width == #[trigger] pow2(n);
        assert(frame.width as int == pow2(n));
    }
}

proof fn lemma_same_pixels(a: Seq<u32>, b: Seq<u32>, cpd: int, widths: Seq<int>, n: nat)
    requires
        0 < cpd,
        widths.len() > 0,
        n <= cpd * cpd * widths.len(),
        forall|px: int| 0 <= px < (32 * cpd) * (32 * cpd) ==> #[trigger] a[px] == b[px],
    ensures
        encoded_blocks(a, cpd, widths, n) == encoded_blocks(b, cpd, widths, n),
    decreases n,
{
    if n > 0 {
        lemma_same_pixels(a, b, cpd, widths, (n - 1) as nat);
        let r = widths.len() as int;
        let c = (n - 1) / r;
        assert(0 <= c < cpd * cpd) by (nonlinear_arith)
            requires
                c == (n - 1) / r,
                0 <= n - 1 < cpd * cpd * r,
                r > 0,
        ;
        let x = block_values(a, cpd, widths, n - 1);
        let y = block_values(b, cpd, widths, n - 1);
        assert forall|k: int| 0 <= k < 1024 implies #[trigger] x[k] == y[k] by {
            lemma_pixel_index(32, cpd, c, k);
        }
        assert(x =~= y);
    }
}

/// Samples behind the last pixel of an image do not count.
pub proof fn law_gdm_further_samples(frame: Frame, cut: Frame, params: LayerParams, samples: int)
    requires
        frame.color_type is Grayscale && samples == 1 || frame.color_type is Rgb && samples == 3
            || frame.color_type is Rgba && samples == 4,
        cut.color_type == frame.color_type,
        cut.width == frame.width,
        cut.height == frame.height,
        frame.width == frame.height,
        frame.width > 0,
        frame.width as int % 32 == 0,
        cut.pixels.len() == samples * (frame.width * frame.height),
        cut.pixels.len() <= frame.pixels.len(),
        forall|i: int| 0 <= i < cut.pixels.len() ==> #[trigger] cut.pixels[i] == frame.pixels[i],
    ensures
        encoded_gdm(frame, params) == encoded_gdm(cut, params),
{
    let side = frame.width as int;
    let cpd = side / 32;
    let widths = range_widths(params);
    let a = channel_values(frame);
    let b = channel_values(cut);
    let count = frame.width * frame.height;
    assert((32 * cpd) * (32 * cpd) == count) by {
        assert(32 * cpd == side);
    }
    assert forall|px: int| 0 <= px < count implies #[trigger] a[px] == b[px] by {
        assert(cut.pixels[samples * px] == frame.pixels[samples * px]);
        if samples > 1 {
            assert(cut.pixels[samples * px + 1] == frame.pixels[samples * px + 1]);
            assert(cut.pixels[samples * px + 2] == frame.pixels[samples * px + 2]);
        }
    }
    assert(cpd * cpd * widths.len() >= 0) by (nonlinear_arith);
    lemma_same_pixels(a, b, cpd, widths, (cpd * cpd * widths.len()) as nat);
}

/// The GDM file of an image shows, of every pixel, the channels of the layer: the least significant
/// bits of its value, of which the first sample is the least significant byte. This asks that no
/// range is wider than ten channels.
pub proof fn law_gdm_shows_samples(
    frame: Frame,
    params: LayerParams,
    samples: int,
    n: nat,
    px: int,
)
    requires
        frame.color_type is Grayscale && samples == 1 || frame.color_type is Rgb && samples == 3
            || frame.color_type is Rgba && samples == 4,
        frame.pixels.len() == samples * (frame.width * frame.height),
        frame.width == frame.height,
        frame.width == pow2(n + 5),
        3 * (frame.width * frame.height) <= isize::MAX,
        0 <= px < frame.width * frame.height,
        match params.compression_channels {
            None => params.num_channels <= 10,
            Some(cc) => cc <= 10 && 0 <= params.num_channels - cc <= 10,
        },
    ensures
        ({
            let file = encoded_gdm(frame, params);
            let value = frame.pixels[samples * px] + (if samples > 1 {
                256 * frame.pixels[samples * px + 1] + 65536 * frame.pixels[samples * px + 2]
            } else {
                0
            });
            &&& gdm_decodable(file)
            &&& header_accepted(file)
            &&& scan_file(file) == Scan::Complete(file.len() as int)
            &&& layout(file).side() == frame.width
            &&& layout(file).channels == params.num_channels
            &&& pixel_value(file, px) == value % pow2(params.num_channels as nat) as int
        }),
{
    let count = frame.width * frame.height;
    assert(count >= 0) by (nonlinear_arith)
        requires
            count == frame.width * frame.height,
    ;
    let values = Seq::new(
        count as nat,
        |i: int|
            (frame.pixels[samples * i] + (if samples > 1 {
                256 * frame.pixels[samples * i + 1] + 65536 * frame.pixels[samples * i + 2]
            } else {
                0
            })) as u32,
    );
    lemma_values(frame, samples, values);
    law_gdm_sides(frame.width as int);
    assert(pow2(n + 5) == frame.width && n + 5 >= 5);
    assert(gdm_storable(frame, params));
    law_narrow_layers_are_exact(frame, params);
    law_gdm_round_trip(frame, params);
    assert(pixel_value(encoded_gdm(frame, params), px) == layer_value(frame, params, px));
}

} // verus!
