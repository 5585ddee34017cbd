//! How the bytes of a GDM file are read.

use crate::error::ConvertError;
use crate::gdm_block::{block_len, block_pixel, block_readable, decoded_block};
use crate::gdm_decode::{
    block_pos, combined_pixels, decoded_gdm, gdm_decodable, header_accepted, header_refused, layout,
    pixel_value, scan_blocks, scan_chunks, scan_file, GdmHeader, Layout, Scan,
};
use vstd::arithmetic::power2::*;
use vstd::prelude::*;

verus! {

/// A header is accepted where it is long enough, starts with the letters of the format behind a
/// double quote and a version of zero, or behind an exclamation mark. Otherwise the first of these
/// that does not hold is the error.
pub proof fn law_gdm_header_is_accepted(data: Seq<u8>, error: ConvertError)
    ensures
        header_accepted(data) <==> data.len() >= 16 && data.subrange(1, 4) == seq![
            0x4du8,
            0x44u8,
            0x46u8,
        ] && (data[0] == 0x21 || data[0] == 0x22 && data.subrange(4, 8) == seq![
            0u8,
            0u8,
            0u8,
            0u8,
        ]),
        !header_accepted(data) ==> (header_refused(data, error) <==> if data.len() < 16 {
            error is TooSmall
        } else if data.subrange(1, 4) != seq![0x4du8, 0x44u8, 0x46u8] || data[0] != 0x21 && data[0]
            != 0x22 {
            error is NotGdm
        } else {
            error matches ConvertError::UnsupportedVersion(v) && v == data[4] + 256 * data[5]
                + 65536 * data[6] + 16777216 * data[7]
        }),
{
    let letters = seq![0x4du8, 0x44u8, 0x46u8];
    let zeros = seq![0u8, 0u8, 0u8, 0u8];
    if data.len() >= 16 {
        let l = data.subrange(1, 4);
        let z = data.subrange(4, 8);
        assert(l[0] == data[1] && l[1] == data[2] && l[2] == data[3]);
        assert(z[0] == data[4] && z[1] == data[5] && z[2] == data[6] && z[3] == data[7]);
        if data[1] == 0x4d && data[2] == 0x44 && data[3] == 0x46 {
            assert(l =~= letters);
        }
        if l == letters {
            assert(l[0] == letters[0] && l[1] == letters[1] && l[2] == letters[2]);
        }
        if data[4] == 0 && data[5] == 0 && data[6] == 0 && data[7] == 0 {
            assert(z =~= zeros);
        }
        if z == zeros {
            assert(z[0] == zeros[0] && z[1] == zeros[1] && z[2] == zeros[2] && z[3] == zeros[3]);
        }
    }
}

/// Where the fields of a header stand, in the current format and in the old one.
pub proof fn law_gdm_fields(data: Seq<u8>)
    requires
        header_accepted(data),
    ensures
        data[0] == 0x22 ==> layout(data) == (Layout {
            side_log2: data[8] as int,
            chunk_log2: data[9] as int,
            channels: data[11] as int,
            ranges: data[12] as int,
            header_len: 16,
            mappings: data[14] as int,
        }),
        data[0] == 0x21 ==> layout(data) == (Layout {
            side_log2: data[4] as int,
            chunk_log2: data[5] as int,
            channels: data[7] as int,
            ranges: data[8] as int,
            header_len: 9,
            mappings: 0,
        }),
        layout(data).side() == pow2((layout(data).side_log2 + 5) as nat),
{
}

/// What is read of a header is what it says.
pub proof fn law_gdm_header_view(header: GdmHeader)
    ensures
        header@ == (Layout {
            side_log2: header.side_log2 as int,
            chunk_log2: header.chunk_log2 as int,
            channels: header.num_channels as int,
            ranges: header.num_compression_ranges as int,
            header_len: header.header_len as int,
            mappings: header.mapping_channels as int,
        }),
{
}

/// A file is defined where the sizes in its header can be represented, the channels at which its
/// ranges meet are in order, and every block can be read.
pub proof fn law_gdm_is_decodable(data: Seq<u8>)
    requires
        header_accepted(data),
    ensures
        ({
            let l = layout(data);
            let side = pow2((l.side_log2 + 5) as nat) as int;
            let meets = |i: int|
                if i <= 0 {
                    0
                } else if i < l.ranges {
                    data[l.header_len + i - 1] as int
                } else {
                    l.channels
                };
            gdm_decodable(data) <==> {
                &&& l.side_log2 + 5 < usize::BITS
                &&& l.chunk_log2 < usize::BITS
                &&& l.ranges > 1 ==> l.header_len + l.ranges - 1 <= data.len()
                &&& forall|i: int| 0 <= i < l.ranges ==> #[trigger] meets(i) <= meets(i + 1)
                &&& side * side * (if l.channels > 8 {
                    3int
                } else {
                    1int
                }) <= isize::MAX
                &&& scan_file(data) !is Undefined
            }
        }),
{
    let l = layout(data);
    let meets = |i: int|
        if i <= 0 {
            0
        } else if i < l.ranges {
            data[l.header_len + i - 1] as int
        } else {
            l.channels
        };
    assert forall|i: int| #[trigger] meets(i) == l.boundary(data, i) by {}
    if forall|i: int| 0 <= i < l.ranges ==> #[trigger] meets(i) <= meets(i + 1) {
        assert forall|i: int| 0 <= i < l.ranges implies l.boundary(data, i)
            <= #[trigger] l.boundary(data, i + 1) by {
            assert(meets(i) <= meets(i + 1));
        }
    }
    if forall|i: int| 0 <= i < l.ranges ==> l.boundary(data, i) <= #[trigger] l.boundary(data, i + 1) {
        assert forall|i: int| 0 <= i < l.ranges implies #[trigger] meets(i) <= meets(i + 1) by {
            assert(l.boundary(data, i) <= l.boundary(data, i + 1));
        }
    }
}

proof fn lemma_scan_blocks(data: Seq<u8>, chunk_size: int, starts: Seq<int>, a: int, n: nat)
    requires
        0 <= a < starts.len(),
        forall|i: int|
            0 <= i < starts.len() - 1 ==> block_readable(data, #[trigger] starts[i], chunk_size)
                && starts[i + 1] == starts[i] + block_len(data, starts[i]),
    ensures
        a + n < starts.len() ==> scan_blocks(data, starts[a], chunk_size, n) == Scan::Complete(
            starts[a + n],
        ),
        a + n >= starts.len() && starts.last() + 2 > data.len() ==> scan_blocks(
            data,
            starts[a],
            chunk_size,
            n,
        ) is Truncated,
    decreases n,
{
    if n > 0 && a + 1 < starts.len() {
        lemma_scan_blocks(data, chunk_size, starts, a + 1, (n - 1) as nat);
        assert(block_readable(data, starts[a], chunk_size));
    }
}

proof fn lemma_scan_chunks(
    data: Seq<u8>,
    chunk_size: int,
    ranges: nat,
    starts: Seq<int>,
    c: nat,
    n: nat,
)
    requires
        c * ranges < starts.len(),
        forall|i: int|
            0 <= i < starts.len() - 1 ==> block_readable(data, #[trigger] starts[i], chunk_size)
                && starts[i + 1] == starts[i] + block_len(data, starts[i]),
    ensures
        (c + n) * ranges < starts.len() ==> scan_chunks(
            data,
            starts[(c * ranges) as int],
            chunk_size,
            ranges,
            true,
            n,
        ) == Scan::Complete(starts[((c + n) * ranges) as int]),
        (c + n) * ranges >= starts.len() && starts.last() + 2 > data.len() ==> scan_chunks(
            data,
            starts[(c * ranges) as int],
            chunk_size,
            ranges,
            true,
            n,
        ) is Truncated,
    decreases n,
{
    lemma_scan_blocks(data, chunk_size, starts, (c * ranges) as int, ranges);
    if n > 0 {
        assert((c + 1) * ranges == c * ranges + ranges) by (nonlinear_arith);
        assert((c + n) * ranges >= (c + 1) * ranges) by (nonlinear_arith)
            requires
                n >= 1,
        ;
        if (c + 1) * ranges < starts.len() {
            lemma_scan_chunks(data, chunk_size, ranges, starts, c + 1, (n - 1) as nat);
        }
    }
}

proof fn lemma_starts(data: Seq<u8>, starts: Seq<int>, n: nat)
    requires
        n < starts.len(),
        forall|i: int|
            0 <= i < starts.len() - 1 ==> #[trigger] starts[i + 1] == starts[i] + block_len(
                data,
                starts[i],
            ),
    ensures
        block_pos(data, starts[0], n) == starts[n as int],
    decreases n,
{
    if n > 0 {
        lemma_starts(data, starts, (n - 1) as nat);
        assert(starts[(n - 1) + 1] == starts[n - 1] + block_len(data, starts[n - 1]));
    }
}

/// The blocks of a file follow each other behind its header, the channels at which its ranges meet,
/// and three bytes for each mapping. Reading ends behind the last block of the last chunk. A file
/// that ends where a block should start is cut off.
pub proof fn law_gdm_blocks_follow(data: Seq<u8>, starts: Seq<int>)
    requires
        header_accepted(data),
        starts.len() > 0,
        starts[0] == layout(data).header_len + (if layout(data).ranges > 1 {
            layout(data).ranges - 1
        } else {
            0
        }) + 3 * layout(data).mappings,
        forall|i: int|
            0 <= i < starts.len() - 1 ==> block_readable(
                data,
                #[trigger] starts[i],
                pow2(layout(data).chunk_log2 as nat) as int,
            ) && starts[i + 1] == starts[i] + 2 + 2 * data[starts[i] + 1] + 128 * data[starts[i]],
        forall|i: int|
            0 < i < layout(data).ranges ==> #[trigger] data[layout(data).header_len + i - 1] < 32,
    ensures
        ({
            let l = layout(data);
            let chunks = pow2((l.side_log2 + 5) as nat) as int / pow2(l.chunk_log2 as nat) as int;
            &&& starts.len() == chunks * chunks * l.ranges + 1 ==> scan_file(data)
                == Scan::Complete(starts.last())
            &&& starts.len() <= chunks * chunks * l.ranges && starts.last() + 2 > data.len()
                ==> scan_file(data) is Truncated
        }),
{
    let l = layout(data);
    let cs = l.chunk_size();
    let chunks = l.side() / cs;
    let ranges = l.ranges as nat;
    assert forall|i: int| 0 <= i < l.ranges implies #[trigger] l.boundary(data, i) < 32 by {
        if i > 0 {
            assert(data[l.header_len + i - 1] < 32);
        }
    }
    lemma_pow2_pos(l.chunk_log2 as nat);
    lemma_pow2_pos((l.side_log2 + 5) as nat);
    assert(chunks >= 0) by (nonlinear_arith)
        requires
            l.side() > 0,
            cs > 0,
            chunks == l.side() / cs,
    ;
    assert(chunks * chunks >= 0) by (nonlinear_arith);
    lemma_scan_chunks(data, cs, ranges, starts, 0, (chunks * chunks) as nat);
    assert(0 * ranges == 0);
}

/// A bit of a machine integer is a digit of it.
proof fn lemma_digit(x: u32, b: u32)
    requires
        b < 32,
    ensures
        (x as int / pow2(b as nat) as int) % 2 == ((x >> b) & 1),
{
    vstd::bits::lemma_u32_shr_is_div(x, b);
    let y: u32 = x >> b;
    assert(y & 1 == y % 2) by (bit_vector);
}

proof fn lemma_combined_digit(pixels: Seq<u16>, shifts: Seq<u32>, r: nat, b: int)
    requires
        0 <= b < 32,
        r <= pixels.len(),
        r <= shifts.len(),
        forall|i: int| 0 <= i < r ==> #[trigger] shifts[i] < 32,
    ensures
        (combined_pixels(pixels, shifts, r) as int / pow2(b as nat) as int) % 2 == 1 <==> exists|
            i: int,
        |
            0 <= i < r && #[trigger] shifts[i] <= b && (pixels[i] as int / pow2(
                (b - shifts[i]) as nat,
            ) as int) % 2 == 1,
        (combined_pixels(pixels, shifts, r) as int / pow2(b as nat) as int) % 2 == 0
            || (combined_pixels(pixels, shifts, r) as int / pow2(b as nat) as int) % 2 == 1,
    decreases r,
{
    let whole = combined_pixels(pixels, shifts, r);
    let p: u32 = b as u32;
    lemma_digit(whole, p);
    if r > 0 {
        let j = r - 1;
        let less = combined_pixels(pixels, shifts, j as nat);
        let x: u32 = pixels[j] as u32;
        let s: u32 = shifts[j];
        lemma_combined_digit(pixels, shifts, j as nat, b);
        lemma_digit(less, p);
        let d: u32 = if s <= p {
            (p - s) as u32
        } else {
            0
        };
        lemma_digit(x, d);
        assert(whole == less | (x << s));
        assert(((less | (x << s)) >> p) & 1 == 1u32 <==> ((less >> p) & 1 == 1u32 || s <= p && ((x
            >> d) & 1 == 1u32))) by (bit_vector)
            requires
                s < 32,
                p < 32,
                s <= p ==> d == p - s,
        ;
        if (whole as int / pow2(b as nat) as int) % 2 == 1 {
            if (less >> p) & 1 == 1 {
                let i = choose|i: int|
                    0 <= i < j && #[trigger] shifts[i] <= b && (pixels[i] as int / pow2(
                        (b - shifts[i]) as nat,
                    ) as int) % 2 == 1;
                assert(0 <= i < r && shifts[i] <= b);
            } else {
                assert(shifts[j] <= b);
            }
        }
        if exists|i: int|
            0 <= i < r && #[trigger] shifts[i] <= b && (pixels[i] as int / pow2(
                (b - shifts[i]) as nat,
            ) as int) % 2 == 1 {
            let i = choose|i: int|
                0 <= i < r && #[trigger] shifts[i] <= b && (pixels[i] as int / pow2(
                    (b - shifts[i]) as nat,
                ) as int) % 2 == 1;
            if i < j {
                assert(0 <= i < j && shifts[i] <= b);
            } else {
                assert(i == j);
            }
        }
    } else {
        assert((0u32 >> p) & 1 == 0u32) by (bit_vector);
    }
}

/// What a file gives to a pixel of its image. The chunks stand row by row, and so do the pixels of
/// each. A bit of the value is set where a block of the chunk sets it, whose bits begin at the
/// channel where its range begins.
pub proof fn law_gdm_pixel(data: Seq<u8>, starts: Seq<int>, px: int, b: int)
    requires
        ({
            let l = layout(data);
            let side = pow2((l.side_log2 + 5) as nat) as int;
            let cs = pow2(l.chunk_log2 as nat) as int;
            let chunks = side / cs;
            &&& 0 <= px < side * side
            &&& 0 <= b < 32
            &&& chunks > 0
            &&& side == cs * chunks
            &&& starts.len() == chunks * chunks * l.ranges + 1
        }),
        starts[0] == layout(data).header_len + (if layout(data).ranges > 1 {
            layout(data).ranges - 1
        } else {
            0
        }) + 3 * layout(data).mappings,
        forall|i: int|
            0 <= i < starts.len() - 1 ==> #[trigger] starts[i + 1] == starts[i] + 2 + 2
                * data[starts[i] + 1] + 128 * data[starts[i]],
        forall|i: int|
            0 < i < layout(data).ranges ==> #[trigger] data[layout(data).header_len + i - 1] < 32,
    ensures
        ({
            let l = layout(data);
            let side = pow2((l.side_log2 + 5) as nat) as int;
            let cs = pow2(l.chunk_log2 as nat) as int;
            let chunk = px / side / cs * (side / cs) + px % side / cs;
            let place = px / side % cs * cs + px % side % cs;
            (pixel_value(data, px) as int / pow2(b as nat) as int) % 2 == 1 <==> {
                ||| l.ranges > 0 && (decoded_block(data, starts[chunk * l.ranges], cs)[place] as int
                    / pow2(b as nat) as int) % 2 == 1
                ||| exists|r: int|
                    0 < r < l.ranges && #[trigger] data[l.header_len + r - 1] <= b && (decoded_block(
                        data,
                        starts[chunk * l.ranges + r],
                        cs,
                    )[place] as int / pow2((b - data[l.header_len + r - 1]) as nat) as int) % 2 == 1
            }
        }),
{
    let l = layout(data);
    let side = l.side();
    let cs = l.chunk_size();
    let chunks = side / cs;
    let c = px / side / cs * chunks + px % side / cs;
    let k = px / side % cs * cs + px % side % cs;
    lemma_pow2_pos(l.chunk_log2 as nat);
    lemma_pow2_pos((l.side_log2 + 5) as nat);
    crate::grid::lemma_chunk_of(cs, chunks, px);
    assert(cs * chunks == side);
    assert(crate::grid::chunk_of(cs, chunks, px) == c);
    assert(crate::grid::place_of(cs, chunks, px) == k);
    let pixels = Seq::new(
        l.ranges as nat,
        |r: int| block_pixel(data, block_pos(data, l.data_start(), (c * l.ranges + r) as nat), k),
    );
    let shifts = Seq::new(l.ranges as nat, |r: int| l.boundary(data, r) as u32);
    assert forall|r: int| 0 <= r < l.ranges implies #[trigger] pixels[r] == decoded_block(
        data,
        starts[c * l.ranges + r],
        cs,
    )[k] by {
        let n = c * l.ranges + r;
        assert(0 <= n < chunks * chunks * l.ranges) by (nonlinear_arith)
            requires
                0 <= c < chunks * chunks,
                0 <= r < l.ranges,
                n == c * l.ranges + r,
        ;
        lemma_starts(data, starts, n as nat);
    }
    assert forall|r: int| 0 <= r < l.ranges implies #[trigger] shifts[r] < 32 && shifts[r] == (
    if r == 0 {
        0
    } else {
        data[l.header_len + r - 1] as int
    }) by {
        if r > 0 {
            assert(data[l.header_len + r - 1] < 32);
        }
    }
    lemma_combined_digit(pixels, shifts, l.ranges as nat, b);
    let whole = pixel_value(data, px);
    assert(whole == combined_pixels(pixels, shifts, l.ranges as nat));
    if exists|r: int|
        0 <= r < l.ranges && #[trigger] shifts[r] <= b && (pixels[r] as int / pow2(
            (b - shifts[r]) as nat,
        ) as int) % 2 == 1 {
        let r = choose|r: int|
            0 <= r < l.ranges && #[trigger] shifts[r] <= b && (pixels[r] as int / pow2(
                (b - shifts[r]) as nat,
            ) as int) % 2 == 1;
        assert(pixels[r] == decoded_block(data, starts[c * l.ranges + r], cs)[k]);
        if r > 0 {
            assert(data[l.header_len + r - 1] <= b);
        }
    }
    if l.ranges > 0 && (decoded_block(data, starts[c * l.ranges], cs)[k] as int / pow2(
        b as nat,
    ) as int) % 2 == 1 {
        assert(pixels[0] == decoded_block(data, starts[c * l.ranges + 0], cs)[k]);
        assert(shifts[0] <= b);
    }
    if exists|r: int|
        0 < r < l.ranges && #[trigger] data[l.header_len + r - 1] <= b && (decoded_block(
            data,
            starts[c * l.ranges + r],
            cs,
        )[k] as int / pow2((b - data[l.header_len + r - 1]) as nat) as int) % 2 == 1 {
        let r = choose|r: int|
            0 < r < l.ranges && #[trigger] data[l.header_len + r - 1] <= b && (decoded_block(
                data,
                starts[c * l.ranges + r],
                cs,
            )[k] as int / pow2((b - data[l.header_len + r - 1]) as nat) as int) % 2 == 1;
        assert(pixels[r] == decoded_block(data, starts[c * l.ranges + r], cs)[k]);
        assert(shifts[r] <= b);
    }
}

/// The image that a file shows: for each pixel the least significant byte of its value, and the two
/// bytes above it where there are more than eight channels. An image without chunks is zero.
pub proof fn law_gdm_image(data: Seq<u8>, px: int)
    requires
        0 <= px < layout(data).side() * layout(data).side(),
    ensures
        ({
            let side = pow2((layout(data).side_log2 + 5) as nat) as int;
            let v = pixel_value(data, px) as int;
            let shown = decoded_gdm(data);
            &&& layout(data).side() == side
            &&& if layout(data).channels > 8 {
                &&& shown.len() == 3 * (side * side)
                &&& shown[3 * px] == v % 256
                &&& shown[3 * px + 1] == v / 256 % 256
                &&& shown[3 * px + 2] == v / 65536 % 256
            } else {
                &&& shown.len() == side * side
                &&& shown[px] == v % 256
            }
            &&& side / pow2(layout(data).chunk_log2 as nat) as int == 0 ==> v == 0
        }),
{
    let side = layout(data).side();
    assert((3 * px) / 3 == px && (3 * px) % 3 == 0);
    assert((3 * px + 1) / 3 == px && (3 * px + 1) % 3 == 1);
    assert((3 * px + 2) / 3 == px && (3 * px + 2) % 3 == 2);
    assert(px / 1 == px && px % 1 == 0);
    assert(side * side * 1 == side * side && side * side * 3 == 3 * (side * side));
}

} // verus!
