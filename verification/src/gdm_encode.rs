//! Writing GDM files.

use crate::error::ConvertError;
use crate::gdm_block::{
    bit_width, block_encodable, encode_gdm_block, encoded_block, lemma_bit_width_at_most,
    lemma_palette, palette_of, raw_depth,
};
use crate::grid::{lemma_pixel_index, pixel_index};
use crate::layer::LayerParams;
use crate::png_file::{supported_color, ColorType, Frame, PngImage};
use vstd::arithmetic::power2::*;
use vstd::prelude::*;

verus! {

/// The side of the chunks that are written.
pub const CHUNK_SIZE: usize = 32;

/// The binary logarithm of the side of the chunks that are written.
pub const CHUNK_LOG2: u8 = 5;

/// The value of each pixel of a frame, of which the least significant byte comes first. Alpha
/// samples are ignored.
pub open spec fn channel_values(frame: Frame) -> Seq<u32> {
    let p = frame.pixels;
    match frame.color_type {
        ColorType::Grayscale => Seq::new(
            (frame.width * frame.height) as nat,
            |i: int| p[i] as u32,
        ),
        ColorType::Rgb => Seq::new(
            p.len() / 3,
            |i: int| (p[3 * i] + 256 * p[3 * i + 1] + 65536 * p[3 * i + 2]) as u32,
        ),
        ColorType::Rgba => Seq::new(
            (p.len() + 1) / 4,
            |i: int| (p[4 * i] + 256 * p[4 * i + 1] + 65536 * p[4 * i + 2]) as u32,
        ),
        _ => Seq::empty(),
    }
}

/// Whether every pixel of a frame has its samples, and no pixel beyond is cut short.
pub open spec fn values_complete(frame: Frame) -> bool {
    let count = frame.width * frame.height;
    let len = frame.pixels.len();
    &&& count <= isize::MAX
    &&& match frame.color_type {
        ColorType::Grayscale => count <= len,
        ColorType::Rgb => len % 3 == 0 && count <= len / 3,
        ColorType::Rgba => (len % 4 == 0 || len % 4 == 3) && count <= (len + 1) / 4,
        _ => true,
    }
}

fn read_values(image: &PngImage) -> (values: Vec<u32>)
    requires
        supported_color(image.color_type),
        values_complete(image@),
    ensures
        values@ == channel_values(image@),
{
    let mut values: Vec<u32> = Vec::new();
    let len: usize = image.pixels.len();
    let mut i: usize = 0;
    match image.color_type {
        ColorType::Grayscale => {
            assert(image.width as int * image.height as int <= usize::MAX);
            let count: usize = image.width as usize * image.height as usize;
            while i < count
                invariant
                    i <= count <= image.pixels@.len(),
                    count == image.width * image.height,
                    image.color_type == ColorType::Grayscale,
                    values@ == channel_values(image@).take(i as int),
                decreases count - i,
            {
                values.push(image.pixels[i] as u32);
                assert(values@ =~= channel_values(image@).take(i + 1));
                i = i + 1;
            }
        },
        ColorType::Rgb => {
            while i < len / 3
                invariant
                    i <= len / 3,
                    len == image.pixels@.len(),
                    image.color_type == ColorType::Rgb,
                    values@ == channel_values(image@).take(i as int),
                decreases len - i,
            {
                let r: u32 = image.pixels[3 * i] as u32;
                let g: u32 = image.pixels[3 * i + 1] as u32;
                let b: u32 = image.pixels[3 * i + 2] as u32;
                values.push(r + 256 * g + 65536 * b);
                assert(values@ =~= channel_values(image@).take(i + 1));
                i = i + 1;
            }
        },
        _ => {
            let count: usize = if len % 4 == 3 {
                len / 4 + 1
            } else {
                len / 4
            };
            while i < count
                invariant
                    i <= count,
                    count == (len + 1) / 4,
                    len % 4 == 0 || len % 4 == 3,
                    len == image.pixels@.len(),
                    image.color_type == ColorType::Rgba,
                    values@ == channel_values(image@).take(i as int),
                decreases count - i,
            {
                let r: u32 = image.pixels[4 * i] as u32;
                let g: u32 = image.pixels[4 * i + 1] as u32;
                let b: u32 = image.pixels[4 * i + 2] as u32;
                values.push(r + 256 * g + 65536 * b);
                assert(values@ =~= channel_values(image@).take(i + 1));
                i = i + 1;
            }
        },
    }
    assert(values@ =~= channel_values(image@));
    values
}

/// The widths of the ranges into which the bits of a pixel are split.
pub open spec fn range_widths(params: LayerParams) -> Seq<int> {
    match params.compression_channels {
        Some(cc) => seq![cc as int, params.num_channels - cc],
        None => seq![params.num_channels as int],
    }
}

/// The bit at which range `r` starts.
pub open spec fn range_shift(widths: Seq<int>, r: int) -> int
    decreases r,
{
    if r <= 0 {
        0
    } else {
        range_shift(widths, r - 1) + widths[r - 1]
    }
}

/// What the range of `width` bits at bit `shift` holds of `value`, cut to 16 bits.
pub open spec fn range_value(value: u32, shift: int, width: int) -> u16 {
    ((value as int / pow2(shift as nat) as int) % pow2(width as nat) as int % 65536) as u16
}

/// What one range holds of the pixels of chunk `c`.
pub open spec fn chunk_values(values: Seq<u32>, cpd: int, c: int, shift: int, width: int) -> Seq<
    u16,
> {
    Seq::new(
        1024,
        |k: int| range_value(values[pixel_index(32, cpd, c, k)], shift, width),
    )
}

/// The pixels of block `n`. The blocks of a chunk, one for each range, follow each other.
pub open spec fn block_values(values: Seq<u32>, cpd: int, widths: Seq<int>, n: int) -> Seq<u16> {
    let r = n % (widths.len() as int);
    chunk_values(values, cpd, n / (widths.len() as int), range_shift(widths, r), widths[r])
}

/// The first `n` blocks.
pub open spec fn encoded_blocks(values: Seq<u32>, cpd: int, widths: Seq<int>, n: nat) -> Seq<u8>
    decreases n,
{
    if n == 0 {
        Seq::empty()
    } else {
        encoded_blocks(values, cpd, widths, (n - 1) as nat) + encoded_block(
            block_values(values, cpd, widths, n - 1),
            32,
            widths[(n - 1) % (widths.len() as int)],
        )
    }
}

/// Whether `side` is a power of two, and at least 32.
pub open spec fn valid_side(side: int) -> bool {
    side >= 32 && side == pow2((bit_width(side as nat) - 1) as nat)
}

/// The first bytes of a GDM file.
pub open spec fn gdm_header(side: int, params: LayerParams) -> Seq<u8> {
    seq![
        0x22u8,
        0x4d,
        0x44,
        0x46,
        0,
        0,
        0,
        0,
        (bit_width(side as nat) - 6) as u8,
        5,
        2,
        (params.num_channels % 256) as u8,
        range_widths(params).len() as u8,
        (params.type_index_channels % 256) as u8,
        0,
        0,
    ]
}

/// Where the ranges of a pixel meet.
pub open spec fn gdm_boundary(params: LayerParams) -> Seq<u8> {
    match params.compression_channels {
        Some(cc) => seq![(cc % 256) as u8],
        None => Seq::empty(),
    }
}

/// The GDM file of a frame.
pub open spec fn encoded_gdm(frame: Frame, params: LayerParams) -> Seq<u8> {
    let side = frame.width as int;
    let cpd = side / 32;
    let widths = range_widths(params);
    gdm_header(side, params) + gdm_boundary(params) + encoded_blocks(
        channel_values(frame),
        cpd,
        widths,
        (cpd * cpd * widths.len()) as nat,
    )
}

/// Whether a layer can be stored: it is split within its channels, and no range has 32 of them.
pub open spec fn ranges_fit(params: LayerParams) -> bool {
    match params.compression_channels {
        Some(cc) => cc < 32 && params.num_channels - cc < 32,
        None => params.num_channels < 32,
    }
}

/// Whether `encode_gdm` is defined. A frame that is refused needs nothing but a side.
pub open spec fn gdm_encodable(frame: Frame, params: LayerParams) -> bool {
    ||| frame.width != frame.height
    ||| {
        &&& frame.width > 0
        &&& {
            ||| !valid_side(frame.width as int)
            ||| {
                &&& params.compression_channels matches Some(cc) ==> cc <= params.num_channels
                &&& supported_color(frame.color_type) ==> values_complete(frame) && ranges_fit(
                    params,
                )
            }
        }
    }
}

/// The binary logarithm of `side`, less 5, where `side` is a power of two and at least 32.
fn side_log2(side: usize) -> (log: Option<u8>)
    ensures
        valid_side(side as int) ==> log == Some((bit_width(side as nat) - 6) as u8) && bit_width(
            side as nat,
        ) <= 64,
        !valid_side(side as int) ==> log is None,
{
    if side < 32 {
        return None;
    }
    proof {
        lemma2_to64();
        lemma2_to64_rest();
        lemma_bit_width_at_most(side as nat, 64);
    }
    let mut rest: usize = side;
    let mut n: u8 = 0;
    while rest % 2 == 0
        invariant
            0 < rest <= side,
            side == rest * pow2(n as nat),
            bit_width(rest as nat) + n == bit_width(side as nat),
            bit_width(side as nat) <= 64,
        decreases rest,
    {
        proof {
            lemma_pow2_unfold((n + 1) as nat);
            assert(rest * pow2(n as nat) == (rest / 2) * (2 * pow2(n as nat))) by (nonlinear_arith)
                requires
                    rest % 2 == 0,
            ;
        }
        rest = rest / 2;
        n = n + 1;
    }
    if rest == 1 {
        proof {
            assert(bit_width(1) == 1) by {
                assert(bit_width(0) == 0);
            }
            if n < 5 {
                lemma_pow2_strictly_increases(n as nat, 5);
            }
        }
        Some(n - 5)
    } else {
        proof {
            let m = (bit_width(rest as nat) - 1) as nat;
            assert(m >= 1) by {
                assert(bit_width((rest / 2) as nat) >= 1);
            }
            lemma_pow2_adds(n as nat, m);
            lemma_pow2_unfold(m);
            lemma_pow2_pos(n as nat);
            if side == pow2((bit_width(side as nat) - 1) as nat) {
                assert(rest == pow2(m)) by (nonlinear_arith)
                    requires
                        rest * pow2(n as nat) == pow2(n as nat) * pow2(m),
                        pow2(n as nat) > 0,
                ;
            }
        }
        None
    }
}

/// What one range holds of the pixels of chunk `c`.
fn extract_range(values: &Vec<u32>, cpd: usize, c: usize, shift: u32, width: u32) -> (pixels: Vec<
    u16,
>)
    requires
        0 < cpd,
        c < cpd * cpd,
        (32 * cpd) * (32 * cpd) <= values@.len(),
        shift < 32,
        width < 32,
    ensures
        pixels@ == chunk_values(values@, cpd as int, c as int, shift as int, width as int),
{
    let mut pixels: Vec<u16> = Vec::new();
    let mut k: usize = 0;
    proof {
        vstd::bits::lemma_u32_pow2_no_overflow(width as nat);
        vstd::bits::lemma_u32_shl_is_mul(1u32, width);
    }
    let mask: u32 = (1u32 << width) - 1;
    assert(values.len() == values@.len());
    assert(32 * cpd <= (32 * cpd) * (32 * cpd)) by (nonlinear_arith)
        requires
            0 < cpd,
    ;
    let side: usize = 32 * cpd;
    while k < 1024
        invariant
            k <= 1024,
            0 < cpd,
            c < cpd * cpd,
            side == 32 * cpd,
            side * side <= values@.len() <= usize::MAX,
            shift < 32,
            width < 32,
            mask == vstd::bits::low_bits_mask(width as nat),
            pixels@.len() == k,
            forall|j: int|
                0 <= j < k ==> #[trigger] pixels@[j] == range_value(
                    values@[pixel_index(32, cpd as int, c as int, j)],
                    shift as int,
                    width as int,
                ),
        decreases 1024 - k,
    {
        proof {
            lemma_pixel_index(32, cpd as int, c as int, k as int);
        }
        let y: usize = c / cpd * 32 + k / 32;
        let x: usize = c % cpd * 32 + k % 32;
        assert(0 <= y * side <= y * side + x);
        let value: u32 = values[y * side + x];
        let field: u32 = (value >> shift) & mask;
        proof {
            vstd::bits::lemma_u32_shr_is_div(value, shift);
            vstd::bits::lemma_u32_low_bits_mask_is_mod(value >> shift, width as nat);
            vstd::bits::lemma_u32_pow2_no_overflow(width as nat);
        }
        pixels.push((field % 65536) as u16);
        k = k + 1;
    }
    assert(pixels@ =~= chunk_values(
        values@,
        cpd as int,
        c as int,
        shift as int,
        width as int,
    ));
    pixels
}

/// The blocks of a layer whose ranges fit can be compressed.
pub proof fn lemma_chunk_encodable(pixels: Seq<u16>, width: int)
    requires
        pixels.len() == 1024,
        0 <= width < 32,
    ensures
        block_encodable(pixels, 32, width),
        palette_of(pixels).len() > 4 ==> 3 <= raw_depth(pixels, width) < 32 && raw_depth(
            pixels,
            width,
        ) >= width,
{
    let values = palette_of(pixels);
    lemma_palette(pixels);
    if values.len() > 4 {
        let last = values.last();
        assert(values[0] < values[1] && values[1] < values[2] && values[2] < values[3] && values[3]
            < last);
        lemma2_to64();
        lemma_bit_width_at_most(last as nat, 16);
        assert(bit_width(last as nat) >= 3) by {
            assert(bit_width(last as nat) == 1 + bit_width((last / 2) as nat));
            assert(bit_width((last / 2) as nat) == 1 + bit_width((last / 4) as nat)) by {
                assert((last / 2) / 2 == last / 4);
            }
            assert(bit_width((last / 4) as nat) >= 1);
        }
    }
}

/// Whether every pixel of an image has its samples.
fn is_complete(image: &PngImage) -> (complete: bool)
    ensures
        complete == values_complete(image@),
{
    let len: usize = image.pixels.len();
    let count: usize = match (image.width as usize).checked_mul(image.height as usize) {
        Some(count) => count,
        None => {
            return false;
        },
    };
    if count > isize::MAX as usize {
        return false;
    }
    match image.color_type {
        ColorType::Grayscale => count <= len,
        ColorType::Rgb => len % 3 == 0 && count <= len / 3,
        ColorType::Rgba => (len % 4 == 0 && count <= len / 4) || (len % 4 == 3 && count <= len / 4
            + 1),
        _ => true,
    }
}

/// Whether `encode_gdm` is defined on an image and a layer.
pub fn is_gdm_encodable(image: &PngImage, params: &LayerParams) -> (encodable: bool)
    ensures
        encodable == gdm_encodable(image@, *params),
{
    if image.width != image.height {
        return true;
    }
    if image.width == 0 {
        return false;
    }
    if side_log2(image.width as usize).is_none() {
        return true;
    }
    let fit: bool = match params.compression_channels {
        Some(cc) => {
            if cc > params.num_channels {
                return false;
            }
            cc < 32 && params.num_channels - cc < 32
        },
        None => params.num_channels < 32,
    };
    match image.color_type {
        ColorType::Grayscale => fit && is_complete(image),
        ColorType::Rgb => fit && is_complete(image),
        ColorType::Rgba => fit && is_complete(image),
        _ => true,
    }
}

/// Compresses an image to a GDM file.
pub fn encode_gdm(image: &PngImage, params: &LayerParams) -> (res: Result<Vec<u8>, ConvertError>)
    requires
        gdm_encodable(image@, *params),
    ensures
        if image.width != image.height {
            res matches Err(ConvertError::NotSquare)
        } else if !valid_side(image.width as int) {
            res matches Err(ConvertError::NotPowerOfTwo(side)) && side == image.width
        } else if !supported_color(image.color_type) {
            res matches Err(ConvertError::UnsupportedColorType)
        } else {
            res matches Ok(file) && file@ == encoded_gdm(image@, *params)
        },
{
    if image.width != image.height {
        return Err(ConvertError::NotSquare);
    }
    let side: usize = image.width as usize;
    let log: u8 = match side_log2(side) {
        Some(log) => log,
        None => {
            return Err(ConvertError::NotPowerOfTwo(side));
        },
    };
    match image.color_type {
        ColorType::Grayscale => {},
        ColorType::Rgb => {},
        ColorType::Rgba => {},
        _ => {
            return Err(ConvertError::UnsupportedColorType);
        },
    }
    let values: Vec<u32> = read_values(image);
    let cpd: usize = side / 32;
    let ghost widths = range_widths(*params);
    let (ranges, first_width, second_width): (usize, usize, usize) =
        match params.compression_channels {
        Some(cc) => (2, cc, params.num_channels - cc),
        None => (1, params.num_channels, 0),
    };
    let mut out: Vec<u8> = vec![
        0x22u8,
        0x4d,
        0x44,
        0x46,
        0,
        0,
        0,
        0,
        log,
        CHUNK_LOG2,
        2,
        (params.num_channels % 256) as u8,
        ranges as u8,
        (params.type_index_channels % 256) as u8,
        0,
        0,
    ];
    assert(out@ =~= gdm_header(side as int, *params));
    match params.compression_channels {
        Some(cc) => {
            out.push((cc % 256) as u8);
        },
        None => {},
    }
    let ghost head = gdm_header(side as int, *params) + gdm_boundary(*params);
    assert(out@ =~= head);
    proof {
        lemma_side_is_chunked(side as int);
        assert(cpd * cpd * 2 <= (32 * cpd) * (32 * cpd)) by (nonlinear_arith)
            requires
                0 <= cpd,
        ;
        assert(cpd * cpd * ranges <= cpd * cpd * 2) by (nonlinear_arith)
            requires
                0 <= cpd,
                ranges <= 2,
        ;
        assert(cpd * cpd <= cpd * cpd * 2) by (nonlinear_arith)
            requires
                0 <= cpd,
        ;
        assert(image.width * image.height == side * side);
        assert(channel_values(image@).len() >= side * side);
    }
    let total: usize = cpd * cpd * ranges;
    let mut n: usize = 0;
    assert(out@ =~= head + encoded_blocks(values@, cpd as int, widths, 0));
    while n < total
        invariant
            n <= total,
            0 < cpd,
            ranges == 1 || ranges == 2,
            total == cpd * cpd * ranges,
            widths.len() == ranges,
            widths[0] == first_width,
            ranges == 2 ==> widths[1] == second_width,
            first_width < 32,
            second_width < 32,
            (32 * cpd) * (32 * cpd) <= values@.len(),
            out@ == head + encoded_blocks(values@, cpd as int, widths, n as nat),
        decreases total - n,
    {
        let c: usize = n / ranges;
        let r: usize = n % ranges;
        assert(c < cpd * cpd) by (nonlinear_arith)
            requires
                n < cpd * cpd * ranges,
                c == n / ranges,
                ranges > 0,
        ;
        let shift: usize = if r == 0 {
            0
        } else {
            first_width
        };
        let width: usize = if r == 0 {
            first_width
        } else {
            second_width
        };
        proof {
            reveal_with_fuel(range_shift, 2);
            assert(shift == range_shift(widths, r as int));
            assert(width == widths[r as int]);
        }
        let pixels: Vec<u16> = extract_range(&values, cpd, c, shift as u32, width as u32);
        assert(pixels@ == block_values(values@, cpd as int, widths, n as int));
        proof {
            lemma_chunk_encodable(pixels@, width as int);
        }
        let mut block: Vec<u8> = encode_gdm_block(pixels.as_slice(), CHUNK_SIZE, width);
        let ghost before = out@;
        out.append(&mut block);
        assert(out@ =~= head + encoded_blocks(values@, cpd as int, widths, (n + 1) as nat));
        n = n + 1;
    }
    Ok(out)
}

/// A valid side is a whole number of chunks.
pub proof fn lemma_side_is_chunked(side: int)
    requires
        valid_side(side),
    ensures
        side == 32 * (side / 32),
        side / 32 > 0,
        bit_width(side as nat) >= 6,
{
    let n = (bit_width(side as nat) - 1) as nat;
    lemma2_to64();
    if n < 5 {
        lemma_pow2_strictly_increases(n, 5);
    }
    lemma_pow2_adds(5, (n - 5) as nat);
}

} // verus!
