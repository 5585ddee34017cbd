//! What reading a GDM file gives back of what was written.

use crate::gdm_block::{
    bit_width, block_len, block_pixel, block_readable, decoded_block, encoded_block,
    lemma_bit_width_at_most, lemma_palette, palette_of, raw_depth,
};
use crate::gdm_block_laws::{block_lossless, law_block_read_back, law_block_round_trip};
use crate::gdm_decode::{
    block_pos, chunk_pixel, combined_pixels, decoded_gdm, gdm_decodable, header_accepted, layout,
    pixel_value, scan_blocks, scan_chunks, scan_file, value_byte, Scan,
};
use crate::gdm_encode::{
    block_values, channel_values, encoded_blocks, encoded_gdm, gdm_boundary, gdm_header,
    lemma_chunk_encodable, lemma_side_is_chunked, range_shift, range_value, range_widths,
    ranges_fit, valid_side, values_complete,
};
use crate::grid::{chunk_of, lemma_chunk_of, lemma_pixel_index, pixel_index, place_of};
use crate::layer::LayerParams;
use crate::png_file::{supported_color, ColorType, Frame};
use vstd::arithmetic::power2::*;
use vstd::prelude::*;

verus! {

/// Whether nothing is lost in block `n`: what its range holds of every pixel fits in 16 bits and
/// in the block.
pub open spec fn block_exact(values: Seq<u32>, cpd: int, widths: Seq<int>, n: int) -> bool {
    let ranges = widths.len() as int;
    let r = n % ranges;
    &&& block_lossless(block_values(values, cpd, widths, n), widths[r])
    &&& forall|k: int|
        0 <= k < 1024 ==> (#[trigger] values[pixel_index(32, cpd, n / ranges, k)] as int / pow2(
            range_shift(widths, r) as nat,
        ) as int) % pow2(widths[r] as nat) as int <= 65535
}

/// Whether nothing is lost in the GDM file of a frame.
pub open spec fn gdm_exact(frame: Frame, params: LayerParams) -> bool {
    let cpd = frame.width as int / 32;
    let widths = range_widths(params);
    forall|n: int|
        0 <= n < cpd * cpd * widths.len() ==> #[trigger] block_exact(
            channel_values(frame),
            cpd,
            widths,
            n,
        )
}

/// Whether a frame and a layer give a GDM file that the decoder has room for.
pub open spec fn gdm_storable(frame: Frame, params: LayerParams) -> bool {
    let side = frame.width as int;
    &&& frame.width == frame.height
    &&& valid_side(side)
    &&& supported_color(frame.color_type)
    &&& values_complete(frame)
    &&& params.compression_channels matches Some(cc) ==> cc <= params.num_channels
    &&& ranges_fit(params)
    &&& side * side * (if params.num_channels > 8 {
        3int
    } else {
        1int
    }) <= isize::MAX
}

proof fn lemma_blocks_prefix(values: Seq<u32>, cpd: int, widths: Seq<int>, n: nat, m: nat)
    requires
        n <= m,
    ensures
        encoded_blocks(values, cpd, widths, n).len() <= encoded_blocks(
            values,
            cpd,
            widths,
            m,
        ).len(),
        encoded_blocks(values, cpd, widths, m).take(
            encoded_blocks(values, cpd, widths, n).len() as int,
        ) == encoded_blocks(values, cpd, widths, n),
    decreases m,
{
    let a = encoded_blocks(values, cpd, widths, n);
    let b = encoded_blocks(values, cpd, widths, m);
    if n < m {
        lemma_blocks_prefix(values, cpd, widths, n, (m - 1) as nat);
        let c = encoded_blocks(values, cpd, widths, (m - 1) as nat);
        assert(b.take(a.len() as int) =~= c.take(a.len() as int));
    } else {
        assert(b.take(a.len() as int) =~= a);
    }
}

/// Block `n` of a file stands where the blocks before it end, and gives back its pixels.
proof fn lemma_block_at(
    head: Seq<u8>,
    values: Seq<u32>,
    cpd: int,
    widths: Seq<int>,
    total: nat,
    n: nat,
)
    requires
        widths.len() > 0,
        forall|r: int| 0 <= r < widths.len() ==> 0 <= #[trigger] widths[r] < 32,
        n < total,
        block_exact(values, cpd, widths, n as int),
    ensures
        ({
            let data = head + encoded_blocks(values, cpd, widths, total);
            let pos = (head.len() + encoded_blocks(values, cpd, widths, n).len()) as int;
            &&& block_readable(data, pos, 32)
            &&& pos + block_len(data, pos) == head.len() + encoded_blocks(
                values,
                cpd,
                widths,
                n + 1,
            ).len()
            &&& pos + block_len(data, pos) <= data.len()
            &&& decoded_block(data, pos, 32) == block_values(values, cpd, widths, n as int)
        }),
{
    let all = encoded_blocks(values, cpd, widths, total);
    let data = head + all;
    let before = encoded_blocks(values, cpd, widths, n);
    let pixels = block_values(values, cpd, widths, n as int);
    let width = widths[(n as int) % (widths.len() as int)];
    let block = encoded_block(pixels, 32, width);
    let upto = encoded_blocks(values, cpd, widths, n + 1);
    assert(upto == before + block);
    lemma_blocks_prefix(values, cpd, widths, n + 1, total);
    let suffix = all.skip(upto.len() as int);
    assert(all =~= upto + suffix) by {
        assert(all.take(upto.len() as int) == upto);
        assert(all =~= all.take(upto.len() as int) + suffix);
    }
    assert(data =~= (head + before) + block + suffix);
    lemma_chunk_encodable(pixels, width);
    law_block_read_back(head + before, pixels, 32, width, suffix);
    law_block_round_trip(head + before, pixels, 32, width, suffix);
}

/// Where the blocks of a file start.
proof fn lemma_block_positions(
    head: Seq<u8>,
    values: Seq<u32>,
    cpd: int,
    widths: Seq<int>,
    total: nat,
    n: nat,
)
    requires
        widths.len() > 0,
        forall|r: int| 0 <= r < widths.len() ==> 0 <= #[trigger] widths[r] < 32,
        n <= total,
        forall|i: int| 0 <= i < total ==> #[trigger] block_exact(values, cpd, widths, i),
    ensures
        block_pos(head + encoded_blocks(values, cpd, widths, total), head.len() as int, n)
            == head.len() + encoded_blocks(values, cpd, widths, n).len(),
    decreases n,
{
    if n > 0 {
        let before = (n - 1) as nat;
        lemma_block_positions(head, values, cpd, widths, total, before);
        assert(block_exact(values, cpd, widths, before as int));
        lemma_block_at(head, values, cpd, widths, total, before);
    }
}

/// Every block of a file can be read.
proof fn lemma_scan_blocks(
    head: Seq<u8>,
    values: Seq<u32>,
    cpd: int,
    widths: Seq<int>,
    total: nat,
    a: nat,
    n: nat,
)
    requires
        widths.len() > 0,
        forall|r: int| 0 <= r < widths.len() ==> 0 <= #[trigger] widths[r] < 32,
        a + n <= total,
        forall|i: int| 0 <= i < total ==> #[trigger] block_exact(values, cpd, widths, i),
    ensures
        ({
            let data = head + encoded_blocks(values, cpd, widths, total);
            let start = head.len() as int;
            scan_blocks(data, block_pos(data, start, a), 32, n) == Scan::Complete(
                block_pos(data, start, a + n),
            )
        }),
    decreases n,
{
    if n > 0 {
        lemma_block_positions(head, values, cpd, widths, total, a);
        assert(block_exact(values, cpd, widths, a as int));
        lemma_block_at(head, values, cpd, widths, total, a);
        lemma_scan_blocks(head, values, cpd, widths, total, a + 1, (n - 1) as nat);
    }
}

/// Every chunk of a file can be read.
proof fn lemma_scan_chunks(
    head: Seq<u8>,
    values: Seq<u32>,
    cpd: int,
    widths: Seq<int>,
    total: nat,
    c: nat,
    n: nat,
)
    requires
        widths.len() > 0,
        forall|r: int| 0 <= r < widths.len() ==> 0 <= #[trigger] widths[r] < 32,
        (c + n) * widths.len() <= total,
        forall|i: int| 0 <= i < total ==> #[trigger] block_exact(values, cpd, widths, i),
    ensures
        ({
            let data = head + encoded_blocks(values, cpd, widths, total);
            let start = head.len() as int;
            scan_chunks(
                data,
                block_pos(data, start, c * widths.len()),
                32,
                widths.len(),
                true,
                n,
            ) == Scan::Complete(block_pos(data, start, (c + n) * widths.len()))
        }),
    decreases n,
{
    if n > 0 {
        let ranges = widths.len();
        assert(c * ranges + ranges == (c + 1) * ranges && (c + 1) * ranges <= (c + n) * ranges)
            by (nonlinear_arith)
            requires
                n >= 1,
        ;
        lemma_scan_blocks(head, values, cpd, widths, total, c * ranges, ranges);
        lemma_scan_chunks(head, values, cpd, widths, total, c + 1, (n - 1) as nat);
        assert((c + 1) + (n - 1) as nat == c + n);
    }
}

/// The two ranges of a value, side by side, are the value cut to both widths.
proof fn lemma_two_ranges(value: u32, low: int, high: int)
    requires
        value < 16777216,
        0 <= low < 32,
        0 <= high < 32,
        (value as int / pow2(low as nat) as int) % pow2(high as nat) as int <= 65535,
        value as int % pow2(low as nat) as int <= 65535,
    ensures
        (range_value(value, 0, low) as u32) | ((range_value(value, low, high) as u32) << (
        low as u32)) == value as int % pow2((low + high) as nat) as int,
{
    let a: u32 = range_value(value, 0, low) as u32;
    let b: u32 = range_value(value, low, high) as u32;
    let s: u32 = low as u32;
    let p = pow2(low as nat) as int;
    let q = pow2(high as nat) as int;
    lemma2_to64();
    lemma_pow2_pos(low as nat);
    lemma_pow2_pos(high as nat);
    assert(value as int / 1 == value);
    assert(a == value as int % p);
    assert(b == (value as int / p) % q);
    vstd::bits::lemma_u32_pow2_no_overflow(low as nat);
    vstd::bits::lemma_u32_shl_is_mul(1u32, s);
    assert(b <= value as int / p) by {
        vstd::arithmetic::div_mod::lemma_mod_decreases((value as int / p) as nat, q as nat);
    }
    vstd::arithmetic::div_mod::lemma_fundamental_div_mod(value as int, p);
    assert(b * p <= value) by (nonlinear_arith)
        requires
            0 <= b <= value as int / p,
            p > 0,
            value as int == p * (value as int / p) + value as int % p,
            0 <= value as int % p,
    ;
    vstd::bits::lemma_u32_shl_is_mul(b, s);
    let shifted: u32 = b << s;
    assert(a | shifted == a + shifted) by (bit_vector)
        requires
            shifted == b << s,
            s < 32,
            a < 1u32 << s,
            a + shifted <= 0xffff_ffff,
    ;
    vstd::arithmetic::div_mod::lemma_mod_breakdown(value as int, p, q);
    lemma_pow2_adds(low as nat, high as nat);
    assert(b * p == p * b) by (nonlinear_arith);
}

/// The value of a frame's pixel is at most three bytes.
proof fn lemma_value_bound(frame: Frame, px: int)
    requires
        0 <= px < channel_values(frame).len(),
    ensures
        channel_values(frame)[px] < 16777216,
{
}

/// What the header of a file that was written says.
proof fn lemma_layout(frame: Frame, params: LayerParams)
    requires
        gdm_storable(frame, params),
    ensures
        ({
            let data = encoded_gdm(frame, params);
            let l = layout(data);
            let widths = range_widths(params);
            &&& header_accepted(data)
            &&& l.side() == frame.width
            &&& l.chunk_size() == 32
            &&& l.chunks_per_side() == frame.width as int / 32
            &&& l.channels == params.num_channels
            &&& l.ranges == widths.len()
            &&& l.data_start() == gdm_header(frame.width as int, params).len() + gdm_boundary(
                params,
            ).len()
            &&& l.sound(data)
            &&& l.shifts_fit(data)
            &&& forall|r: int|
                0 <= r < widths.len() ==> #[trigger] l.boundary(data, r) == range_shift(widths, r)
            &&& forall|r: int| 0 <= r < widths.len() ==> 0 <= #[trigger] widths[r] < 32
        }),
{
    let data = encoded_gdm(frame, params);
    let l = layout(data);
    let widths = range_widths(params);
    let side = frame.width as int;
    let header = gdm_header(side, params);
    assert(data.len() >= 16);
    assert(forall|i: int| 0 <= i < 16 ==> data[i] == #[trigger] header[i]);
    assert(data[0] == header[0] && data[1] == header[1] && data[2] == header[2] && data[3]
        == header[3]);
    assert(data[4] == header[4] && data[5] == header[5] && data[6] == header[6] && data[7]
        == header[7]);
    assert(data[8] == header[8] && data[9] == header[9] && data[11] == header[11] && data[12]
        == header[12] && data[14] == header[14]);
    lemma2_to64();
    lemma_side_is_chunked(side);
    lemma_bit_width_at_most(side as nat, 32);
    assert(l.side_log2 == bit_width(side as nat) - 6);
    assert(l.side() == side);
    assert(l.chunk_size() == 32);
    reveal_with_fuel(range_shift, 3);
    match params.compression_channels {
        Some(cc) => {
            assert(data[16] == (cc % 256) as u8);
            assert(l.boundary(data, 0) == 0);
            assert(l.boundary(data, 1) == cc);
            assert(l.boundary(data, 2) == params.num_channels);
        },
        None => {
            assert(l.boundary(data, 0) == 0);
            assert(l.boundary(data, 1) == params.num_channels);
        },
    }
}

/// The value of a pixel, cut to the channels of the layer.
pub open spec fn layer_value(frame: Frame, params: LayerParams, px: int) -> int {
    channel_values(frame)[px] as int % pow2(params.num_channels as nat) as int
}

/// The GDM file of an image can be read to its end, and gives back the size of the image, the
/// channels of the layer and, of every pixel, the bits of these channels. This asks that nothing
/// is lost in a block.
pub proof fn law_gdm_round_trip(frame: Frame, params: LayerParams)
    requires
        gdm_storable(frame, params),
        gdm_exact(frame, params),
    ensures
        gdm_decodable(encoded_gdm(frame, params)),
        header_accepted(encoded_gdm(frame, params)),
        scan_file(encoded_gdm(frame, params)) == Scan::Complete(
            encoded_gdm(frame, params).len() as int,
        ),
        layout(encoded_gdm(frame, params)).side() == frame.width,
        layout(encoded_gdm(frame, params)).channels == params.num_channels,
        forall|px: int|
            0 <= px < frame.width * frame.height ==> #[trigger] pixel_value(
                encoded_gdm(frame, params),
                px,
            ) == layer_value(frame, params, px),
{
    let data = encoded_gdm(frame, params);
    let l = layout(data);
    let side = frame.width as int;
    let cpd = side / 32;
    let values = channel_values(frame);
    let widths = range_widths(params);
    let ranges = widths.len();
    let head = gdm_header(side, params) + gdm_boundary(params);
    assert(cpd * cpd * ranges >= 0) by (nonlinear_arith);
    let total = (cpd * cpd * ranges) as nat;
    let chunks = (cpd * cpd) as nat;
    lemma_layout(frame, params);
    lemma_side_is_chunked(side);
    assert(data == head + encoded_blocks(values, cpd, widths, total));
    assert(chunks >= 0 && chunks == cpd * cpd && chunks * ranges == total) by (nonlinear_arith)
        requires
            chunks == (cpd * cpd) as nat,
            total == (cpd * cpd * ranges) as nat,
            cpd >= 0,
    ;
    assert(0 * ranges == 0);
    lemma_scan_chunks(head, values, cpd, widths, total, 0, chunks);
    lemma_block_positions(head, values, cpd, widths, total, total);
    assert(scan_file(data) == Scan::Complete(data.len() as int));
    assert forall|px: int| 0 <= px < frame.width * frame.height implies #[trigger] pixel_value(
        data,
        px,
    ) == layer_value(frame, params, px) by {
        assert(side * side == frame.width * frame.height);
        lemma_chunk_of(32, cpd, px);
        let c = chunk_of(32, cpd, px);
        let k = place_of(32, cpd, px);
        lemma_chunk_pixel(frame, params, c, k);
    }
}

/// What reading gives for pixel `k` of chunk `c`.
proof fn lemma_chunk_pixel(frame: Frame, params: LayerParams, c: int, k: int)
    requires
        gdm_storable(frame, params),
        gdm_exact(frame, params),
        0 <= c < (frame.width as int / 32) * (frame.width as int / 32),
        0 <= k < 1024,
        0 <= pixel_index(32, frame.width as int / 32, c, k) < channel_values(frame).len(),
    ensures
        chunk_pixel(encoded_gdm(frame, params), layout(encoded_gdm(frame, params)), c, k)
            == layer_value(frame, params, pixel_index(32, frame.width as int / 32, c, k)),
{
    let data = encoded_gdm(frame, params);
    let l = layout(data);
    let side = frame.width as int;
    let cpd = side / 32;
    let values = channel_values(frame);
    let widths = range_widths(params);
    let ranges = widths.len() as int;
    let head = gdm_header(side, params) + gdm_boundary(params);
    assert(cpd * cpd * ranges >= 0) by (nonlinear_arith)
        requires
            ranges >= 0,
    ;
    let total = (cpd * cpd * ranges) as nat;
    let px = pixel_index(32, cpd, c, k);
    let value = values[px];
    lemma_layout(frame, params);
    lemma_value_bound(frame, px);
    assert(data == head + encoded_blocks(values, cpd, widths, total));
    let pixels = Seq::new(
        l.ranges as nat,
        |r: int| block_pixel(data, block_pos(data, l.data_start(), (c * l.ranges + r) as nat), k),
    );
    let shifts = Seq::new(l.ranges as nat, |r: int| l.boundary(data, r) as u32);
    assert forall|r: int| 0 <= r < ranges implies #[trigger] pixels[r] == range_value(
        value,
        range_shift(widths, r),
        widths[r],
    ) && (value as int / pow2(range_shift(widths, r) as nat) as int) % pow2(
        widths[r] as nat,
    ) as int <= 65535 by {
        let n = c * ranges + r;
        assert(0 <= n < cpd * cpd * ranges) by (nonlinear_arith)
            requires
                0 <= r < ranges,
                0 <= c < cpd * cpd,
                n == c * ranges + r,
        ;
        vstd::arithmetic::div_mod::lemma_fundamental_div_mod_converse(n, ranges, c, r);
        assert(block_exact(values, cpd, widths, n));
        lemma_block_positions(head, values, cpd, widths, total, n as nat);
        lemma_block_at(head, values, cpd, widths, total, n as nat);
        let pos = block_pos(data, l.data_start(), n as nat);
        assert(decoded_block(data, pos, 32)[k] == block_pixel(data, pos, k));
        assert(values[pixel_index(32, cpd, n / ranges, k)] == value);
    }
    reveal_with_fuel(range_shift, 3);
    reveal_with_fuel(combined_pixels, 3);
    lemma2_to64();
    assert(pixels[0] == range_value(value, 0, widths[0]));
    assert(value as int / 1 == value);
    let first: u32 = pixels[0] as u32;
    assert(shifts[0] == 0);
    assert(0u32 | (first << 0u32) == first) by (bit_vector);
    assert(combined_pixels(pixels, shifts, 1) == first);
    match params.compression_channels {
        Some(cc) => {
            assert(pixels[1] == range_value(value, cc as int, widths[1]));
            lemma_two_ranges(value, cc as int, widths[1]);
            assert(combined_pixels(pixels, shifts, 2) == first | ((pixels[1] as u32)
                << shifts[1]));
        },
        None => {},
    }
}

/// Whether a range of this width can hold any values: a field of it never reaches beyond the two
/// bytes in which it starts.
pub open spec fn narrow(width: int) -> bool {
    0 <= width <= 10 || width == 12
}

proof fn lemma_narrow_block(pixels: Seq<u16>, width: int)
    requires
        pixels.len() == 1024,
        narrow(width),
        forall|k: int| 0 <= k < pixels.len() ==> #[trigger] pixels[k] < pow2(width as nat),
    ensures
        block_lossless(pixels, width),
{
    let values = palette_of(pixels);
    lemma_palette(pixels);
    lemma_chunk_encodable(pixels, width);
    if values.len() > 4 {
        assert(values.contains(values.last()));
        assert(pixels.contains(values.last()));
        lemma_bit_width_at_most(values.last() as nat, width as nat);
        let depth = raw_depth(pixels, width);
        assert(depth == width);
        assert forall|k: int| 0 <= k < pixels.len() implies #[trigger] pixels[k] < pow2(
            (16 - (k * depth) % 8) as nat,
        ) by {
            let room = (16 - (k * depth) % 8) as nat;
            if depth == 10 {
                assert((k * 10) % 8 <= 6);
            } else if depth == 12 {
                assert((k * 12) % 8 <= 4);
            }
            if depth < room {
                lemma_pow2_strictly_increases(depth as nat, room);
            }
        }
    }
}

/// Nothing is lost in the GDM file of any image where every range of the layer has at most ten
/// channels, or twelve.
pub proof fn law_narrow_layers_are_exact(frame: Frame, params: LayerParams)
    requires
        gdm_storable(frame, params),
        forall|r: int|
            0 <= r < range_widths(params).len() ==> narrow(#[trigger] range_widths(params)[r]),
    ensures
        gdm_exact(frame, params),
{
    let cpd = frame.width as int / 32;
    let widths = range_widths(params);
    let values = channel_values(frame);
    lemma2_to64();
    assert forall|n: int| 0 <= n < cpd * cpd * widths.len() implies #[trigger] block_exact(
        values,
        cpd,
        widths,
        n,
    ) by {
        let r = n % (widths.len() as int);
        let width = widths[r];
        let shift = range_shift(widths, r);
        let pixels = block_values(values, cpd, widths, n);
        assert(narrow(widths[r]));
        if width < 12 {
            lemma_pow2_strictly_increases(width as nat, 12);
        }
        lemma_pow2_pos(width as nat);
        lemma_pow2_pos(shift as nat);
        assert(pow2(12) == 4096);
        assert forall|k: int| 0 <= k < 1024 implies #[trigger] pixels[k] < pow2(width as nat) && (
        values[pixel_index(32, cpd, n / (widths.len() as int), k)] as int / pow2(
            shift as nat,
        ) as int) % pow2(width as nat) as int <= 65535 by {
            let v = values[pixel_index(32, cpd, n / (widths.len() as int), k)] as int / pow2(
                shift as nat,
            ) as int;
            vstd::arithmetic::div_mod::lemma_mod_bound(v, pow2(width as nat) as int);
        }
        lemma_narrow_block(pixels, width);
        assert forall|k: int| 0 <= k < 1024 implies (#[trigger] values[pixel_index(
            32,
            cpd,
            n / (widths.len() as int),
            k,
        )] as int / pow2(shift as nat) as int) % pow2(width as nat) as int <= 65535 by {
            assert(pixels[k] < pow2(width as nat));
        }
    }
}

/// The frame that reading the GDM file of an image gives.
pub open spec fn read_back_frame(frame: Frame, params: LayerParams) -> Frame {
    Frame {
        width: frame.width,
        height: frame.height,
        color_type: if params.num_channels > 8 {
            ColorType::Rgb
        } else {
            ColorType::Grayscale
        },
        pixels: decoded_gdm(encoded_gdm(frame, params)),
    }
}

/// A range within the first `channels` bits does not see the others.
proof fn lemma_range_of_layer_value(value: int, channels: int, shift: int, width: int)
    requires
        0 <= value,
        0 <= shift,
        0 <= width,
        shift + width <= channels,
    ensures
        ((value % pow2(channels as nat) as int) / pow2(shift as nat) as int) % pow2(
            width as nat,
        ) as int == (value / pow2(shift as nat) as int) % pow2(width as nat) as int,
{
    let rest = (channels - shift - width) as nat;
    let p = pow2(shift as nat) as int;
    let w = pow2(width as nat) as int;
    let q = pow2(rest) as int;
    lemma_pow2_pos(shift as nat);
    lemma_pow2_pos(width as nat);
    lemma_pow2_pos(rest);
    lemma_pow2_adds(shift as nat, width as nat);
    lemma_pow2_adds((shift + width) as nat, rest);
    let all = pow2(channels as nat) as int;
    lemma_pow2_pos(channels as nat);
    assert(all == p * w * q);
    let m = value % all;
    let t = value / all;
    vstd::arithmetic::div_mod::lemma_fundamental_div_mod(value, all);
    assert(value == p * (w * q * t) + m) by (nonlinear_arith)
        requires
            value == all * t + m,
            all == p * w * q,
    ;
    vstd::arithmetic::div_mod::lemma_hoist_over_denominator(m, w * q * t, p as nat);
    assert(value / p == m / p + w * q * t);
    assert(w * q * t == w * (q * t)) by (nonlinear_arith);
    vstd::arithmetic::div_mod::lemma_mod_multiples_vanish(q * t, m / p, w);
}

/// The value of a pixel is made of its bytes again.
proof fn lemma_read_back_value(frame: Frame, params: LayerParams, px: int)
    requires
        0 <= px < frame.width * frame.height,
        px < channel_values(frame).len(),
        layout(encoded_gdm(frame, params)).side() == frame.width,
        frame.width == frame.height,
        layout(encoded_gdm(frame, params)).channels == params.num_channels,
        pixel_value(encoded_gdm(frame, params), px) == layer_value(frame, params, px),
    ensures
        px < channel_values(read_back_frame(frame, params)).len(),
        channel_values(read_back_frame(frame, params))[px] == layer_value(frame, params, px),
{
    let data = encoded_gdm(frame, params);
    let l = layout(data);
    let back = read_back_frame(frame, params);
    let count = frame.width * frame.height;
    let v = pixel_value(data, px);
    let value = channel_values(frame)[px];
    let modulus = pow2(params.num_channels as nat);
    assert(l.side() * l.side() == count);
    lemma_value_bound(frame, px);
    lemma_pow2_pos(params.num_channels as nat);
    if params.num_channels > 8 {
        vstd::arithmetic::div_mod::lemma_mod_decreases(value as nat, modulus);
        assert(v < 16777216);
        assert(back.pixels.len() == count * 3);
        assert(back.pixels[3 * px] == value_byte(v, 0)) by {
            assert((3 * px) / 3 == px && (3 * px) % 3 == 0);
        }
        assert(back.pixels[3 * px + 1] == value_byte(v, 1)) by {
            assert((3 * px + 1) / 3 == px && (3 * px + 1) % 3 == 1);
        }
        assert(back.pixels[3 * px + 2] == value_byte(v, 2)) by {
            assert((3 * px + 2) / 3 == px && (3 * px + 2) % 3 == 2);
        }
        assert(v % 256 + 256 * (v / 256 % 256) + 65536 * (v / 65536 % 256) == v);
    } else {
        lemma2_to64();
        vstd::arithmetic::div_mod::lemma_mod_bound(value as int, modulus as int);
        if params.num_channels < 8 {
            lemma_pow2_strictly_increases(params.num_channels as nat, 8);
        }
        assert(v < 256);
        assert(px / 1 == px && px % 1 == 0);
        assert(back.pixels.len() == count * 1);
        assert(back.pixels[px] == value_byte(v, 0));
    }
}

/// Writing again what was read from a written file gives the same file.
pub proof fn law_gdm_stable(frame: Frame, params: LayerParams)
    requires
        gdm_storable(frame, params),
        gdm_exact(frame, params),
    ensures
        gdm_storable(read_back_frame(frame, params), params),
        encoded_gdm(read_back_frame(frame, params), params) == encoded_gdm(frame, params),
{
    let data = encoded_gdm(frame, params);
    let back = read_back_frame(frame, params);
    let side = frame.width as int;
    let cpd = side / 32;
    let widths = range_widths(params);
    let a = channel_values(frame);
    let b = channel_values(back);
    law_gdm_round_trip(frame, params);
    lemma_side_is_chunked(side);
    let count = side * side;
    assert(count == frame.width * frame.height);
    assert(back.pixels.len() == count * layout(data).pixel_bytes());
    assert(values_complete(back));
    assert forall|px: int| 0 <= px < count implies #[trigger] b[px] == a[px] as int % pow2(
        params.num_channels as nat,
    ) as int by {
        assert(pixel_value(data, px) == layer_value(frame, params, px));
        lemma_read_back_value(frame, params, px);
    }
    assert(cpd * cpd * widths.len() >= 0) by (nonlinear_arith);
    assert((32 * cpd) * (32 * cpd) == count);
    lemma_same_blocks(a, b, params, cpd, (cpd * cpd * widths.len()) as nat);
}

/// Blocks depend on the channels of the layer alone.
proof fn lemma_same_blocks(a: Seq<u32>, b: Seq<u32>, params: LayerParams, cpd: int, n: nat)
    requires
        0 < cpd,
        n <= cpd * cpd * range_widths(params).len(),
        (32 * cpd) * (32 * cpd) <= a.len(),
        (32 * cpd) * (32 * cpd) <= b.len(),
        params.compression_channels matches Some(cc) ==> cc <= params.num_channels,
        forall|px: int|
            0 <= px < (32 * cpd) * (32 * cpd) ==> #[trigger] b[px] == a[px] as int % pow2(
                params.num_channels as nat,
            ) as int,
    ensures
        encoded_blocks(a, cpd, range_widths(params), n) == encoded_blocks(
            b,
            cpd,
            range_widths(params),
            n,
        ),
    decreases n,
{
    if n > 0 {
        let widths = range_widths(params);
        let ranges = widths.len() as int;
        lemma_same_blocks(a, b, params, cpd, (n - 1) as nat);
        let c = (n - 1) as int / ranges;
        let r = (n - 1) as int % ranges;
        assert(0 <= c < cpd * cpd) by (nonlinear_arith)
            requires
                0 <= n - 1 < cpd * cpd * ranges,
                c == (n - 1) as int / ranges,
                ranges > 0,
        ;
        reveal_with_fuel(range_shift, 2);
        let shift = range_shift(widths, r);
        let x = block_values(a, cpd, widths, n - 1);
        let y = block_values(b, cpd, widths, n - 1);
        assert forall|k: int| 0 <= k < 1024 implies x[k] == y[k] by {
            lemma_pixel_index(32, cpd, c, k);
            let px = pixel_index(32, cpd, c, k);
            assert(b[px] == a[px] as int % pow2(params.num_channels as nat) as int);
            lemma_range_of_layer_value(
                a[px] as int,
                params.num_channels as int,
                shift,
                widths[r],
            );
        }
        assert(x =~= y);
    }
}

} // verus!
