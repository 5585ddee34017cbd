//! Reading GDM files.

use crate::bytes::{read_u32_le, u32_at};
use crate::error::ConvertError;
use crate::gdm_block::{block_len, block_pixel, block_readable, decode_gdm_block, decoded_block};
use crate::grid::{chunk_of, lemma_chunk_of, lemma_pixel_index, place_of};
use vstd::arithmetic::power2::*;
use vstd::prelude::*;

verus! {

/// Whether `data` starts with `first` and the letters of the format.
pub open spec fn has_magic(data: Seq<u8>, first: u8) -> bool {
    data[0] == first && data[1] == 0x4d && data[2] == 0x44 && data[3] == 0x46
}

/// Whether the file has the current header, which is 16 bytes long.
pub open spec fn is_current(data: Seq<u8>) -> bool {
    has_magic(data, 0x22)
}

/// Whether the file has the old header, which is 9 bytes long.
pub open spec fn is_old(data: Seq<u8>) -> bool {
    has_magic(data, 0x21)
}

/// Whether the header is one that can be read.
pub open spec fn header_accepted(data: Seq<u8>) -> bool {
    &&& data.len() >= 16
    &&& is_current(data) || is_old(data)
    &&& is_current(data) ==> u32_at(data, 4) == 0
}

/// What the header of a file says.
pub struct Layout {
    /// The binary logarithm of the side of the image, less 5.
    pub side_log2: int,
    /// The binary logarithm of the side of a chunk.
    pub chunk_log2: int,
    /// The number of bits of a pixel.
    pub channels: int,
    /// The number of ranges into which the bits of a pixel are split.
    pub ranges: int,
    /// The length of the header.
    pub header_len: int,
    /// The number of channel mappings, of three bytes each, that follow the range boundaries.
    pub mappings: int,
}

/// What the header of `data` says.
pub open spec fn layout(data: Seq<u8>) -> Layout {
    if is_current(data) {
        Layout {
            side_log2: data[8] as int,
            chunk_log2: data[9] as int,
            channels: data[11] as int,
            ranges: data[12] as int,
            header_len: 16,
            mappings: data[14] as int,
        }
    } else {
        Layout {
            side_log2: data[4] as int,
            chunk_log2: data[5] as int,
            channels: data[7] as int,
            ranges: data[8] as int,
            header_len: 9,
            mappings: 0,
        }
    }
}

impl Layout {
    /// The side of the image.
    pub open spec fn side(self) -> int {
        pow2((self.side_log2 + 5) as nat) as int
    }

    /// The side of a chunk.
    pub open spec fn chunk_size(self) -> int {
        pow2(self.chunk_log2 as nat) as int
    }

    /// The number of chunks in each direction.
    pub open spec fn chunks_per_side(self) -> int {
        self.side() / self.chunk_size()
    }

    /// The number of bytes of an output pixel: three where a pixel has more than eight channels.
    pub open spec fn pixel_bytes(self) -> int {
        if self.channels > 8 {
            3
        } else {
            1
        }
    }

    /// Where the blocks start.
    pub open spec fn data_start(self) -> int {
        self.header_len + (if self.ranges > 1 {
            self.ranges - 1
        } else {
            0
        }) + 3 * self.mappings
    }

    /// The channel at which range `i` starts, and the one before it ends.
    pub open spec fn boundary(self, data: Seq<u8>, i: int) -> int {
        if i <= 0 {
            0
        } else if i < self.ranges {
            data[self.header_len + i - 1] as int
        } else {
            self.channels
        }
    }

    /// Whether the sizes that the header gives can be represented, and the ranges are in order.
    pub open spec fn sound(self, data: Seq<u8>) -> bool {
        &&& self.side_log2 + 5 < usize::BITS
        &&& self.chunk_log2 < usize::BITS
        &&& self.ranges > 1 ==> self.header_len + self.ranges - 1 <= data.len()
        &&& forall|i: int|
            0 <= i < self.ranges ==> self.boundary(data, i) <= #[trigger] self.boundary(data, i + 1)
        &&& self.side() * self.side() * self.pixel_bytes() <= isize::MAX
    }

    /// Whether the first bit of every range lies within 32 bits.
    pub open spec fn shifts_fit(self, data: Seq<u8>) -> bool {
        forall|i: int| 0 <= i < self.ranges ==> #[trigger] self.boundary(data, i) < 32
    }
}

/// What reading blocks comes to.
pub enum Scan {
    /// A block that is not defined.
    Undefined,
    /// The end of the data where a block should start.
    Truncated,
    /// All blocks, which end here.
    Complete(int),
}

/// Reading `n` blocks from `pos`.
pub open spec fn scan_blocks(data: Seq<u8>, pos: int, chunk_size: int, n: nat) -> Scan
    decreases n,
{
    if n == 0 {
        Scan::Complete(pos)
    } else if pos + 2 > data.len() {
        Scan::Truncated
    } else if !block_readable(data, pos, chunk_size) {
        Scan::Undefined
    } else {
        scan_blocks(data, pos + block_len(data, pos), chunk_size, (n - 1) as nat)
    }
}

/// Reading `n` chunks of `ranges` blocks each from `pos`. The pixels of a chunk are defined only
/// where every range starts within 32 bits.
pub open spec fn scan_chunks(
    data: Seq<u8>,
    pos: int,
    chunk_size: int,
    ranges: nat,
    shifts_fit: bool,
    n: nat,
) -> Scan
    decreases n,
{
    if n == 0 {
        Scan::Complete(pos)
    } else {
        match scan_blocks(data, pos, chunk_size, ranges) {
            Scan::Complete(next) => if shifts_fit {
                scan_chunks(data, next, chunk_size, ranges, shifts_fit, (n - 1) as nat)
            } else {
                Scan::Undefined
            },
            other => other,
        }
    }
}

/// Reading all chunks of a file.
pub open spec fn scan_file(data: Seq<u8>) -> Scan {
    let l = layout(data);
    scan_chunks(
        data,
        l.data_start(),
        l.chunk_size(),
        l.ranges as nat,
        l.shifts_fit(data),
        (l.chunks_per_side() * l.chunks_per_side()) as nat,
    )
}

/// Whether `decode_gdm` is defined.
pub open spec fn gdm_decodable(data: Seq<u8>) -> bool {
    header_accepted(data) ==> layout(data).sound(data) && scan_file(data) != Scan::Undefined
}

/// Where block `n` starts.
pub open spec fn block_pos(data: Seq<u8>, start: int, n: nat) -> int
    decreases n,
{
    if n == 0 {
        start
    } else {
        let pos = block_pos(data, start, (n - 1) as nat);
        pos + block_len(data, pos)
    }
}

/// The union of the first `r` of `pixels`, each shifted to where its range starts.
pub open spec fn combined_pixels(pixels: Seq<u16>, shifts: Seq<u32>, r: nat) -> u32
    decreases r,
{
    if r == 0 {
        0
    } else {
        combined_pixels(pixels, shifts, (r - 1) as nat) | ((pixels[r - 1] as u32) << shifts[r - 1])
    }
}

/// What the ranges give to pixel `k` of chunk `c`.
pub open spec fn chunk_pixel(data: Seq<u8>, l: Layout, c: int, k: int) -> u32 {
    combined_pixels(
        Seq::new(
            l.ranges as nat,
            |r: int|
                block_pixel(data, block_pos(data, l.data_start(), (c * l.ranges + r) as nat), k),
        ),
        Seq::new(l.ranges as nat, |r: int| l.boundary(data, r) as u32),
        l.ranges as nat,
    )
}

/// The value of image pixel `px`. An image smaller than a chunk has no chunk, and no value but 0.
pub open spec fn pixel_value(data: Seq<u8>, px: int) -> u32 {
    let l = layout(data);
    let cs = l.chunk_size();
    let cpd = l.chunks_per_side();
    if cpd == 0 {
        0
    } else {
        chunk_pixel(data, l, chunk_of(cs, cpd, px), place_of(cs, cpd, px))
    }
}

/// Byte `i` of `value`, counted from the least significant.
pub open spec fn value_byte(value: u32, i: int) -> u8 {
    (if i == 0 {
        value % 256
    } else if i == 1 {
        value / 256 % 256
    } else {
        value / 65536 % 256
    }) as u8
}

/// The bytes of the image that a file shows: for each pixel the bytes of its value.
pub open spec fn decoded_gdm(data: Seq<u8>) -> Seq<u8> {
    let l = layout(data);
    Seq::new(
        (l.side() * l.side() * l.pixel_bytes()) as nat,
        |i: int| value_byte(pixel_value(data, i / l.pixel_bytes()), i % l.pixel_bytes()),
    )
}

/// What the header of a file says.
#[derive(Debug, Clone, Copy)]
pub struct GdmHeader {
    pub side_log2: usize,
    pub chunk_log2: usize,
    pub num_channels: usize,
    pub num_compression_ranges: usize,
    pub header_len: usize,
    pub mapping_channels: usize,
}

impl View for GdmHeader {
    type V = Layout;

    open spec fn view(&self) -> Layout {
        Layout {
            side_log2: self.side_log2 as int,
            chunk_log2: self.chunk_log2 as int,
            channels: self.num_channels as int,
            ranges: self.num_compression_ranges as int,
            header_len: self.header_len as int,
            mappings: self.mapping_channels as int,
        }
    }
}

/// The error for a header that is not accepted.
pub open spec fn header_refused(data: Seq<u8>, error: ConvertError) -> bool {
    if data.len() < 16 {
        error is TooSmall
    } else if !is_current(data) && !is_old(data) {
        error is NotGdm
    } else {
        error matches ConvertError::UnsupportedVersion(v) && v == u32_at(data, 4)
    }
}

/// Reads the header of a file.
pub fn read_gdm_header(data: &[u8]) -> (res: Result<GdmHeader, ConvertError>)
    ensures
        match res {
            Ok(header) => header_accepted(data@) && header@ == layout(data@),
            Err(error) => !header_accepted(data@) && header_refused(data@, error),
        },
{
    if data.len() < 16 {
        return Err(ConvertError::TooSmall);
    }
    if data[1] != 0x4d || data[2] != 0x44 || data[3] != 0x46 || (data[0] != 0x22 && data[0]
        != 0x21) {
        return Err(ConvertError::NotGdm);
    }
    if data[0] == 0x22 {
        let version: u32 = read_u32_le(data, 4);
        if version != 0 {
            return Err(ConvertError::UnsupportedVersion(version));
        }
        Ok(
            GdmHeader {
                side_log2: data[8] as usize,
                chunk_log2: data[9] as usize,
                num_channels: data[11] as usize,
                num_compression_ranges: data[12] as usize,
                header_len: 16,
                mapping_channels: data[14] as usize,
            },
        )
    } else {
        Ok(
            GdmHeader {
                side_log2: data[4] as usize,
                chunk_log2: data[5] as usize,
                num_channels: data[7] as usize,
                num_compression_ranges: data[8] as usize,
                header_len: 9,
                mapping_channels: 0,
            },
        )
    }
}

fn power_of_two(n: usize) -> (p: usize)
    requires
        n < usize::BITS,
    ensures
        p == pow2(n as nat),
{
    proof {
        vstd::bits::lemma_usize_pow2_no_overflow(n as nat);
        vstd::bits::lemma_usize_shl_is_mul(1usize, n);
    }
    1usize << n
}

/// The sizes of an image and of its chunks fit each other.
pub proof fn lemma_sizes(l: Layout, data: Seq<u8>)
    requires
        l.sound(data),
        l.side_log2 >= 0,
        l.chunk_log2 >= 0,
    ensures
        l.side() > 0,
        l.chunk_size() > 0,
        0 <= l.chunks_per_side() <= l.side(),
        l.side() * l.side() <= isize::MAX,
        l.chunks_per_side() * l.chunks_per_side() <= isize::MAX,
        l.chunks_per_side() > 0 ==> l.side() == l.chunk_size() * l.chunks_per_side()
            && l.chunk_size() * l.chunk_size() <= isize::MAX,
{
    let a = (l.side_log2 + 5) as nat;
    let b = l.chunk_log2 as nat;
    let side = l.side();
    let cs = l.chunk_size();
    let cpd = l.chunks_per_side();
    lemma_pow2_pos(a);
    lemma_pow2_pos(b);
    assert(side * side <= side * side * l.pixel_bytes()) by (nonlinear_arith)
        requires
            side > 0,
            l.pixel_bytes() >= 1,
    ;
    if b <= a {
        lemma_pow2_adds(b, (a - b) as nat);
        vstd::arithmetic::div_mod::lemma_div_multiples_vanish(pow2((a - b) as nat) as int, cs);
        assert(side == cs * cpd);
        lemma_pow2_pos((a - b) as nat);
        assert(cpd <= side && cs <= side) by (nonlinear_arith)
            requires
                side == cs * cpd,
                cs >= 1,
                cpd >= 1,
        ;
        assert(cpd * cpd <= side * side && cs * cs <= side * side) by (nonlinear_arith)
            requires
                0 <= cpd <= side,
                0 <= cs <= side,
        ;
    } else {
        lemma_pow2_strictly_increases(a, b);
        vstd::arithmetic::div_mod::lemma_basic_div(side, cs);
        assert(cpd * cpd == 0) by (nonlinear_arith)
            requires
                cpd == 0,
        ;
    }
}

/// Reads the channels at which the ranges meet.
fn read_boundaries(data: &[u8], header: &GdmHeader) -> (boundaries: Vec<usize>)
    requires
        header@.sound(data@),
        header.num_compression_ranges < 256,
        header.header_len <= 16,
    ensures
        boundaries@.len() == header.num_compression_ranges + 1,
        forall|i: int|
            0 <= i <= header.num_compression_ranges ==> #[trigger] boundaries@[i]
                == header@.boundary(data@, i),
{
    let mut boundaries: Vec<usize> = Vec::new();
    let ranges: usize = header.num_compression_ranges;
    let mut i: usize = 0;
    while i <= ranges
        invariant
            header@.sound(data@),
            ranges == header.num_compression_ranges,
            ranges < 256,
            header.header_len <= 16,
            i <= ranges + 1,
            boundaries@.len() == i,
            forall|j: int|
                0 <= j < i ==> #[trigger] boundaries@[j] == header@.boundary(data@, j),
        decreases ranges + 1 - i,
    {
        let channel: usize = if i == 0 {
            0
        } else if i < ranges {
            data[header.header_len + i - 1] as usize
        } else {
            header.num_channels
        };
        boundaries.push(channel);
        i = i + 1;
    }
    boundaries
}

/// Reads the blocks of one chunk, and returns their pixels and the place after them.
fn read_chunk(data: &[u8], pos: usize, chunk_size: usize, ranges: usize) -> (res: Result<
    (Vec<Vec<u16>>, usize),
    ConvertError,
>)
    requires
        scan_blocks(data@, pos as int, chunk_size as int, ranges as nat) != Scan::Undefined,
    ensures
        match res {
            Ok((blocks, next)) => {
                &&& scan_blocks(data@, pos as int, chunk_size as int, ranges as nat)
                    == Scan::Complete(next as int)
                &&& next == block_pos(data@, pos as int, ranges as nat)
                &&& blocks@.len() == ranges
                &&& forall|r: int|
                    0 <= r < ranges ==> (#[trigger] blocks@[r])@ == decoded_block(
                        data@,
                        block_pos(data@, pos as int, r as nat),
                        chunk_size as int,
                    )
            },
            Err(e) => e is UnexpectedEnd && scan_blocks(
                data@,
                pos as int,
                chunk_size as int,
                ranges as nat,
            ) == Scan::Truncated,
        },
{
    let mut blocks: Vec<Vec<u16>> = Vec::new();
    let mut at: usize = pos;
    let mut r: usize = 0;
    let ghost whole = scan_blocks(data@, pos as int, chunk_size as int, ranges as nat);
    while r < ranges
        invariant
            r <= ranges,
            whole == scan_blocks(data@, pos as int, chunk_size as int, ranges as nat),
            whole != Scan::Undefined,
            whole == scan_blocks(data@, at as int, chunk_size as int, (ranges - r) as nat),
            at == block_pos(data@, pos as int, r as nat),
            blocks@.len() == r,
            forall|j: int|
                0 <= j < r ==> (#[trigger] blocks@[j])@ == decoded_block(
                    data@,
                    block_pos(data@, pos as int, j as nat),
                    chunk_size as int,
                ),
        decreases ranges - r,
    {
        if data.len() < 2 || at > data.len() - 2 {
            return Err(ConvertError::UnexpectedEnd);
        }
        let (pixels, len) = decode_gdm_block(data, at, chunk_size);
        assert(at + block_len(data@, at as int) <= data@.len());
        assert(data.len() == data@.len());
        blocks.push(pixels);
        at = at + len;
        r = r + 1;
    }
    Ok((blocks, at))
}

/// Combines what the ranges give to pixel `k`.
fn combine(blocks: &Vec<Vec<u16>>, boundaries: &Vec<usize>, k: usize) -> (value: u32)
    requires
        blocks@.len() <= boundaries@.len(),
        forall|r: int| 0 <= r < blocks@.len() ==> k < (#[trigger] blocks@[r])@.len(),
        forall|r: int| 0 <= r < blocks@.len() ==> #[trigger] boundaries@[r] < 32,
    ensures
        value == combined_pixels(
            Seq::new(blocks@.len(), |r: int| blocks@[r]@[k as int]),
            Seq::new(blocks@.len(), |r: int| boundaries@[r] as u32),
            blocks@.len(),
        ),
{
    let ghost pixels = Seq::new(blocks@.len(), |r: int| blocks@[r]@[k as int]);
    let ghost shifts = Seq::new(blocks@.len(), |r: int| boundaries@[r] as u32);
    let mut value: u32 = 0;
    let mut r: usize = 0;
    while r < blocks.len()
        invariant
            r <= blocks@.len(),
            blocks@.len() <= boundaries@.len(),
            forall|j: int| 0 <= j < blocks@.len() ==> k < (#[trigger] blocks@[j])@.len(),
            forall|j: int| 0 <= j < blocks@.len() ==> #[trigger] boundaries@[j] < 32,
            pixels == Seq::new(blocks@.len(), |j: int| blocks@[j]@[k as int]),
            shifts == Seq::new(blocks@.len(), |j: int| boundaries@[j] as u32),
            value == combined_pixels(pixels, shifts, r as nat),
        decreases blocks@.len() - r,
    {
        let pixel: u32 = blocks[r][k] as u32;
        let shift: u32 = boundaries[r] as u32;
        value = value | (pixel << shift);
        r = r + 1;
    }
    value
}

/// Whether an image holds pixel `px`.
spec fn holds_pixel(image: Seq<u8>, rgb: bool, px: int) -> bool {
    0 <= px && (if rgb {
        3 * px + 2 < image.len()
    } else {
        px < image.len()
    })
}

/// Whether pixel `px` of an image shows `value`.
spec fn shows(image: Seq<u8>, rgb: bool, px: int, value: u32) -> bool {
    if rgb {
        image[3 * px] == value_byte(value, 0) && image[3 * px + 1] == value_byte(value, 1)
            && image[3 * px + 2] == value_byte(value, 2)
    } else {
        image[px] == value_byte(value, 0)
    }
}

/// Sets pixel `px` of an image.
fn write_pixel(image: &mut Vec<u8>, rgb: bool, px: usize, value: u32)
    requires
        holds_pixel(old(image)@, rgb, px as int),
    ensures
        final(image)@.len() == old(image)@.len(),
        shows(final(image)@, rgb, px as int, value),
        forall|q: int, v: u32|
            q != px && holds_pixel(old(image)@, rgb, q) && #[trigger] shows(old(image)@, rgb, q, v)
                ==> shows(final(image)@, rgb, q, v),
{
    assert(image.len() == image@.len());
    if rgb {
        image[3 * px] = (value % 256) as u8;
        image[3 * px + 1] = (value / 256 % 256) as u8;
        image[3 * px + 2] = (value / 65536 % 256) as u8;
    } else {
        image[px] = (value % 256) as u8;
    }
}

/// What the blocks of a chunk give to its pixel `k`.
spec fn blocks_pixel(blocks: Seq<Vec<u16>>, boundaries: Seq<usize>, k: int) -> u32 {
    combined_pixels(
        Seq::new(blocks.len(), |r: int| blocks[r]@[k]),
        Seq::new(blocks.len(), |r: int| boundaries[r] as u32),
        blocks.len(),
    )
}

/// Sets the pixels of chunk `c` of an image.
fn write_chunk(
    image: &mut Vec<u8>,
    rgb: bool,
    cs: usize,
    cpd: usize,
    c: usize,
    blocks: &Vec<Vec<u16>>,
    boundaries: &Vec<usize>,
)
    requires
        0 < cs,
        0 < cpd,
        c < cpd * cpd,
        (cs * cpd) * (cs * cpd) * (if rgb {
            3int
        } else {
            1int
        }) == old(image)@.len(),
        blocks@.len() <= boundaries@.len(),
        forall|r: int| 0 <= r < blocks@.len() ==> (#[trigger] blocks@[r])@.len() == cs * cs,
        forall|r: int| 0 <= r < blocks@.len() ==> #[trigger] boundaries@[r] < 32,
    ensures
        final(image)@.len() == old(image)@.len(),
        forall|px: int|
            0 <= px < (cs * cpd) * (cs * cpd) && #[trigger] chunk_of(cs as int, cpd as int, px) == c
                ==> shows(
                final(image)@,
                rgb,
                px,
                blocks_pixel(blocks@, boundaries@, place_of(cs as int, cpd as int, px)),
            ),
        forall|px: int, v: u32|
            0 <= px < (cs * cpd) * (cs * cpd) && chunk_of(cs as int, cpd as int, px) != c
                && #[trigger] shows(old(image)@, rgb, px, v) ==> shows(final(image)@, rgb, px, v),
{
    let ghost before = image@;
    let ghost side = cs * cpd;
    assert(image.len() == image@.len());
    proof {
        lemma_products(cs as int, cpd as int);
    }
    let dim: usize = cs * cpd;
    let total: usize = cs * cs;
    let mut k: usize = 0;
    while k < total
        invariant
            k <= total,
            0 < cs,
            0 < cpd,
            c < cpd * cpd,
            total == cs * cs,
            dim == cs * cpd,
            side == dim,
            side * side <= before.len() <= usize::MAX,
            side * side * (if rgb {
                3int
            } else {
                1int
            }) == before.len(),
            image@.len() == before.len(),
            blocks@.len() <= boundaries@.len(),
            forall|r: int| 0 <= r < blocks@.len() ==> (#[trigger] blocks@[r])@.len() == cs * cs,
            forall|r: int| 0 <= r < blocks@.len() ==> #[trigger] boundaries@[r] < 32,
            forall|px: int|
                0 <= px < side * side && #[trigger] chunk_of(cs as int, cpd as int, px) == c
                    && place_of(cs as int, cpd as int, px) < k ==> shows(
                    image@,
                    rgb,
                    px,
                    blocks_pixel(blocks@, boundaries@, place_of(cs as int, cpd as int, px)),
                ),
            forall|px: int, v: u32|
                0 <= px < side * side && chunk_of(cs as int, cpd as int, px) != c
                    && #[trigger] shows(before, rgb, px, v) ==> shows(image@, rgb, px, v),
        decreases total - k,
    {
        let value: u32 = combine(blocks, boundaries, k);
        proof {
            lemma_pixel_index(cs as int, cpd as int, c as int, k as int);
        }
        let y: usize = c / cpd * cs + k / cs;
        let x: usize = c % cpd * cs + k % cs;
        let px: usize = y * dim + x;
        let ghost previous = image@;
        write_pixel(image, rgb, px, value);
        proof {
            assert forall|q: int|
                0 <= q < side * side && #[trigger] chunk_of(cs as int, cpd as int, q) == c
                    && place_of(cs as int, cpd as int, q) < k + 1 implies shows(
                image@,
                rgb,
                q,
                blocks_pixel(blocks@, boundaries@, place_of(cs as int, cpd as int, q)),
            ) by {
                lemma_chunk_of(cs as int, cpd as int, q);
                if place_of(cs as int, cpd as int, q) == k {
                    assert(q == px);
                } else {
                    assert(shows(
                        previous,
                        rgb,
                        q,
                        blocks_pixel(blocks@, boundaries@, place_of(cs as int, cpd as int, q)),
                    ));
                }
            }
            assert forall|q: int, v: u32|
                0 <= q < side * side && chunk_of(cs as int, cpd as int, q) != c && #[trigger] shows(
                    before,
                    rgb,
                    q,
                    v,
                ) implies shows(image@, rgb, q, v) by {
                assert(shows(previous, rgb, q, v));
            }
        }
        k = k + 1;
    }
    proof {
        assert forall|px: int|
            0 <= px < side * side && #[trigger] chunk_of(cs as int, cpd as int, px) == c implies shows(
            image@,
            rgb,
            px,
            blocks_pixel(blocks@, boundaries@, place_of(cs as int, cpd as int, px)),
        ) by {
            lemma_chunk_of(cs as int, cpd as int, px);
        }
    }
}

proof fn lemma_products(cs: int, cpd: int)
    requires
        0 < cs,
        0 < cpd,
    ensures
        cs <= cs * cpd <= (cs * cpd) * (cs * cpd),
        cs * cs <= (cs * cpd) * (cs * cpd),
{
    let side = cs * cpd;
    assert(cs <= side && 0 < side) by (nonlinear_arith)
        requires
            0 < cs,
            0 < cpd,
            side == cs * cpd,
    ;
    assert(side <= side * side && cs * cs <= side * side) by (nonlinear_arith)
        requires
            0 < cs <= side,
    ;
}

/// Blocks follow each other.
pub proof fn lemma_block_pos_add(data: Seq<u8>, start: int, a: nat, b: nat)
    ensures
        block_pos(data, start, a + b) == block_pos(data, block_pos(data, start, a), b),
    decreases b,
{
    if b > 0 {
        lemma_block_pos_add(data, start, a, (b - 1) as nat);
    }
}

/// The image that a GDM file shows.
#[derive(Debug)]
pub struct GdmImage {
    pub side: usize,
    /// Whether a pixel is three bytes and not one.
    pub rgb: bool,
    pub pixels: Vec<u8>,
    /// The number of bytes that were read.
    pub consumed: usize,
}

/// Where a chunk ends, and that every range starts within 32 bits.
proof fn lemma_scan_step(
    data: Seq<u8>,
    pos: int,
    chunk_size: int,
    ranges: nat,
    shifts_fit: bool,
    n: nat,
)
    requires
        n > 0,
        scan_chunks(data, pos, chunk_size, ranges, shifts_fit, n) != Scan::Undefined,
    ensures
        scan_blocks(data, pos, chunk_size, ranges) != Scan::Undefined,
        scan_blocks(data, pos, chunk_size, ranges) == Scan::Truncated ==> scan_chunks(
            data,
            pos,
            chunk_size,
            ranges,
            shifts_fit,
            n,
        ) == Scan::Truncated,
        scan_blocks(data, pos, chunk_size, ranges) matches Scan::Complete(next) ==> shifts_fit
            && scan_chunks(data, pos, chunk_size, ranges, shifts_fit, n) == scan_chunks(
            data,
            next,
            chunk_size,
            ranges,
            shifts_fit,
            (n - 1) as nat,
        ),
{
}

/// Expands a GDM file to the image that it shows.
pub fn decode_gdm(data: &[u8]) -> (res: Result<GdmImage, ConvertError>)
    requires
        gdm_decodable(data@),
    ensures
        match res {
            Ok(image) => {
                &&& header_accepted(data@)
                &&& scan_file(data@) == Scan::Complete(image.consumed as int)
                &&& image.side == layout(data@).side()
                &&& image.rgb == (layout(data@).channels > 8)
                &&& image.pixels@ == decoded_gdm(data@)
            },
            Err(error) => {
                ||| !header_accepted(data@) && header_refused(data@, error)
                ||| header_accepted(data@) && scan_file(data@) == Scan::Truncated
                    && error is UnexpectedEnd
            },
        },
{
    let header: GdmHeader = match read_gdm_header(data) {
        Ok(header) => header,
        Err(e) => {
            return Err(e);
        },
    };
    let ghost l = layout(data@);
    proof {
        lemma_sizes(l, data@);
    }
    let side: usize = power_of_two(header.side_log2 + 5);
    let chunk_size: usize = power_of_two(header.chunk_log2);
    let ranges: usize = header.num_compression_ranges;
    let boundaries: Vec<usize> = read_boundaries(data, &header);
    let cpd: usize = side / chunk_size;
    let total: usize = cpd * cpd;
    let start: usize = header.header_len + (if ranges > 1 {
        ranges - 1
    } else {
        0
    }) + 3 * header.mapping_channels;
    let rgb: bool = header.num_channels > 8;
    let size: usize = if rgb {
        side * side * 3
    } else {
        side * side
    };
    let mut image: Vec<u8> = vec![0u8; size];
    let mut pos: usize = start;
    let mut c: usize = 0;
    let ghost fit = l.shifts_fit(data@);
    while c < total
        invariant
            c <= total,
            l == layout(data@),
            total == cpd * cpd,
            cpd == l.chunks_per_side(),
            chunk_size == l.chunk_size(),
            0 < chunk_size,
            side == l.side(),
            cpd > 0 ==> side == chunk_size * cpd,
            ranges == l.ranges,
            rgb == (l.channels > 8),
            fit == l.shifts_fit(data@),
            boundaries@.len() == ranges + 1,
            forall|i: int|
                0 <= i <= ranges ==> #[trigger] boundaries@[i] == l.boundary(data@, i),
            header_accepted(data@),
            scan_file(data@) != Scan::Undefined,
            scan_file(data@) == scan_chunks(
                data@,
                pos as int,
                chunk_size as int,
                ranges as nat,
                fit,
                (total - c) as nat,
            ),
            pos == block_pos(data@, l.data_start(), (c * ranges) as nat),
            image@.len() == side * side * l.pixel_bytes(),
            cpd == 0 ==> forall|i: int| 0 <= i < image@.len() ==> image@[i] == 0,
            forall|px: int|
                0 <= px < side * side && #[trigger] chunk_of(chunk_size as int, cpd as int, px) < c
                    ==> shows(image@, rgb, px, pixel_value(data@, px)),
        decreases total - c,
    {
        proof {
            lemma_scan_step(
                data@,
                pos as int,
                chunk_size as int,
                ranges as nat,
                fit,
                (total - c) as nat,
            );
            assert(cpd > 0) by (nonlinear_arith)
                requires
                    0 <= c < cpd * cpd,
            ;
        }
        let (blocks, next) = match read_chunk(data, pos, chunk_size, ranges) {
            Ok(read) => read,
            Err(e) => {
                return Err(e);
            },
        };
        let ghost before = image@;
        proof {
            assert forall|r: int| 0 <= r < blocks@.len() implies #[trigger] boundaries@[r] < 32 by {
                assert(l.boundary(data@, r) < 32);
            }
        }
        write_chunk(&mut image, rgb, chunk_size, cpd, c, &blocks, &boundaries);
        proof {
            let cs = chunk_size as int;
            assert forall|px: int|
                0 <= px < side * side && #[trigger] chunk_of(cs, cpd as int, px) < c + 1 implies shows(
                image@,
                rgb,
                px,
                pixel_value(data@, px),
            ) by {
                lemma_chunk_of(cs, cpd as int, px);
                if chunk_of(cs, cpd as int, px) < c {
                    assert(shows(before, rgb, px, pixel_value(data@, px)));
                } else {
                    let k = place_of(cs, cpd as int, px);
                    assert(chunk_of(cs, cpd as int, px) == c);
                    lemma_blocks_pixel(data@, l, c as int, k, pos as int, blocks@, boundaries@);
                }
            }
            assert((c + 1) * ranges == c * ranges + ranges) by (nonlinear_arith);
            lemma_block_pos_add(data@, l.data_start(), (c * ranges) as nat, ranges as nat);
        }
        pos = next;
        c = c + 1;
    }
    proof {
        lemma_shown_image(data@, image@, l, total as int);
    }
    Ok(GdmImage { side, rgb, pixels: image, consumed: pos })
}

/// The blocks of a chunk give to its pixels what the file says.
proof fn lemma_blocks_pixel(
    data: Seq<u8>,
    l: Layout,
    c: int,
    k: int,
    pos: int,
    blocks: Seq<Vec<u16>>,
    boundaries: Seq<usize>,
)
    requires
        0 <= c,
        0 <= k < l.chunk_size() * l.chunk_size(),
        0 <= l.ranges,
        blocks.len() == l.ranges,
        boundaries.len() == l.ranges + 1,
        pos == block_pos(data, l.data_start(), (c * l.ranges) as nat),
        forall|i: int| 0 <= i <= l.ranges ==> #[trigger] boundaries[i] == l.boundary(data, i),
        forall|r: int|
            0 <= r < l.ranges ==> (#[trigger] blocks[r])@ == decoded_block(
                data,
                block_pos(data, pos, r as nat),
                l.chunk_size(),
            ),
    ensures
        blocks_pixel(blocks, boundaries, k) == chunk_pixel(data, l, c, k),
{
    let ranges = l.ranges as nat;
    assert(0 <= c * l.ranges) by (nonlinear_arith)
        requires
            0 <= c,
            0 <= l.ranges,
    ;
    let a = Seq::new(blocks.len(), |r: int| blocks[r]@[k]);
    let b = Seq::new(
        ranges,
        |r: int| block_pixel(data, block_pos(data, l.data_start(), (c * l.ranges + r) as nat), k),
    );
    assert forall|r: int| 0 <= r < ranges implies a[r] == b[r] by {
        lemma_block_pos_add(data, l.data_start(), (c * l.ranges) as nat, r as nat);
        assert(blocks[r]@ == decoded_block(data, block_pos(data, pos, r as nat), l.chunk_size()));
    }
    assert(a =~= b);
    assert(Seq::new(blocks.len(), |r: int| boundaries[r] as u32) =~= Seq::new(
        ranges,
        |r: int| l.boundary(data, r) as u32,
    ));
}

/// An image that shows every pixel is the image of the file.
proof fn lemma_shown_image(data: Seq<u8>, image: Seq<u8>, l: Layout, total: int)
    requires
        l == layout(data),
        l.sound(data),
        image.len() == l.side() * l.side() * l.pixel_bytes(),
        total == l.chunks_per_side() * l.chunks_per_side(),
        forall|px: int|
            0 <= px < l.side() * l.side() && #[trigger] chunk_of(
                l.chunk_size(),
                l.chunks_per_side(),
                px,
            ) < total ==> shows(image, l.channels > 8, px, pixel_value(data, px)),
        l.chunks_per_side() == 0 ==> forall|i: int| 0 <= i < image.len() ==> image[i] == 0,
    ensures
        image == decoded_gdm(data),
{
    lemma_sizes(l, data);
    assert forall|i: int| 0 <= i < image.len() implies image[i] == #[trigger] decoded_gdm(
        data,
    )[i] by {
        let bytes = l.pixel_bytes();
        let px = i / bytes;
        assert(decoded_gdm(data)[i] == value_byte(pixel_value(data, px), i % bytes));
        if l.chunks_per_side() > 0 {
            assert(0 <= px < l.side() * l.side());
            lemma_chunk_of(l.chunk_size(), l.chunks_per_side(), px);
            assert(shows(image, l.channels > 8, px, pixel_value(data, px)));
        } else {
            assert(pixel_value(data, px) == 0);
            assert(value_byte(0, i % bytes) == 0);
            assert(image[i] == 0);
        }
    }
    assert(image =~= decoded_gdm(data));
}

/// Whether the block at `pos` can be read.
fn is_block_readable(data: &[u8], pos: usize, chunk_size: usize) -> (readable: bool)
    requires
        pos + 2 <= data@.len(),
    ensures
        readable == block_readable(data@, pos as int, chunk_size as int),
{
    assert(data.len() == data@.len());
    let depth: usize = data[pos] as usize;
    let count: usize = data[pos + 1] as usize;
    let room: usize = data.len() - pos;
    let pixels: usize = match chunk_size.checked_mul(chunk_size) {
        Some(pixels) => pixels,
        None => {
            return false;
        },
    };
    if 2 + 2 * count > room {
        return false;
    }
    depth == 0 || (2 + 2 * count + 128 * depth <= room && depth < 16 && pixels <= 1024)
}

/// Whether the sizes that a header gives can be represented, and the ranges are in order.
fn is_sound(data: &[u8], header: &GdmHeader) -> (sound: bool)
    requires
        header_accepted(data@),
        header@ == layout(data@),
    ensures
        sound == header@.sound(data@),
{
    let ranges: usize = header.num_compression_ranges;
    if header.side_log2 + 5 >= usize::BITS as usize || header.chunk_log2 >= usize::BITS as usize {
        return false;
    }
    if ranges > 1 && header.header_len + ranges - 1 > data.len() {
        return false;
    }
    let mut last: usize = 0;
    let mut i: usize = 0;
    while i < ranges
        invariant
            i <= ranges,
            ranges == header.num_compression_ranges,
            header@ == layout(data@),
            ranges > 1 ==> header.header_len + ranges - 1 <= data@.len(),
            last == header@.boundary(data@, i as int),
            forall|j: int|
                0 <= j < i ==> header@.boundary(data@, j) <= #[trigger] header@.boundary(
                    data@,
                    j + 1,
                ),
        decreases ranges - i,
    {
        let next: usize = if i + 1 < ranges {
            data[header.header_len + i] as usize
        } else {
            header.num_channels
        };
        if next < last {
            assert(header@.boundary(data@, i + 1) == next);
            return false;
        }
        last = next;
        i = i + 1;
    }
    let side: usize = power_of_two(header.side_log2 + 5);
    let pixels: usize = match side.checked_mul(side) {
        Some(pixels) => pixels,
        None => {
            proof {
                lemma_too_large(side as int, header@.pixel_bytes());
            }
            return false;
        },
    };
    let bytes: usize = if header.num_channels > 8 {
        3
    } else {
        1
    };
    match pixels.checked_mul(bytes) {
        Some(size) => size <= isize::MAX as usize,
        None => false,
    }
}

proof fn lemma_too_large(side: int, bytes: int)
    requires
        side * side > usize::MAX,
        bytes >= 1,
    ensures
        side * side * bytes > isize::MAX,
{
    let square = side * side;
    assert(square * bytes >= square) by (nonlinear_arith)
        requires
            square >= 0,
            bytes >= 1,
    ;
}

/// Whether every range starts within 32 bits.
fn do_shifts_fit(data: &[u8], header: &GdmHeader) -> (fit: bool)
    requires
        header_accepted(data@),
        header@ == layout(data@),
        header@.sound(data@),
    ensures
        fit == header@.shifts_fit(data@),
{
    let boundaries: Vec<usize> = read_boundaries(data, header);
    let mut i: usize = 0;
    while i < header.num_compression_ranges
        invariant
            i <= header.num_compression_ranges,
            boundaries@.len() == header.num_compression_ranges + 1,
            forall|j: int|
                0 <= j <= header.num_compression_ranges ==> #[trigger] boundaries@[j]
                    == header@.boundary(data@, j),
            forall|j: int| 0 <= j < i ==> #[trigger] header@.boundary(data@, j) < 32,
        decreases header.num_compression_ranges - i,
    {
        if boundaries[i] >= 32 {
            assert(header@.boundary(data@, i as int) >= 32);
            return false;
        }
        i = i + 1;
    }
    true
}

/// Whether `decode_gdm` is defined on a file.
pub fn is_gdm_decodable(data: &[u8]) -> (decodable: bool)
    ensures
        decodable == gdm_decodable(data@),
{
    let header: GdmHeader = match read_gdm_header(data) {
        Ok(header) => header,
        Err(_) => {
            return true;
        },
    };
    if !is_sound(data, &header) {
        return false;
    }
    let ghost l = layout(data@);
    proof {
        lemma_sizes(l, data@);
    }
    let chunk_size: usize = power_of_two(header.chunk_log2);
    let cpd: usize = power_of_two(header.side_log2 + 5) / chunk_size;
    let total: usize = cpd * cpd;
    let ranges: usize = header.num_compression_ranges;
    let fit: bool = do_shifts_fit(data, &header);
    let mut pos: usize = header.header_len + (if ranges > 1 {
        ranges - 1
    } else {
        0
    }) + 3 * header.mapping_channels;
    let mut c: usize = 0;
    while c < total
        invariant
            c <= total,
            l == layout(data@),
            header_accepted(data@),
            l.sound(data@),
            total == l.chunks_per_side() * l.chunks_per_side(),
            chunk_size == l.chunk_size(),
            ranges == l.ranges,
            fit == l.shifts_fit(data@),
            scan_file(data@) == scan_chunks(
                data@,
                pos as int,
                chunk_size as int,
                ranges as nat,
                fit,
                (total - c) as nat,
            ),
        decreases total - c,
    {
        let ghost chunk_start = pos as int;
        let mut r: usize = 0;
        while r < ranges
            invariant
                r <= ranges,
                c < total,
                l == layout(data@),
                header_accepted(data@),
                l.sound(data@),
                ranges == l.ranges,
                scan_file(data@) == scan_chunks(
                    data@,
                    chunk_start,
                    chunk_size as int,
                    ranges as nat,
                    fit,
                    (total - c) as nat,
                ),
                scan_blocks(data@, chunk_start, chunk_size as int, ranges as nat) == scan_blocks(
                    data@,
                    pos as int,
                    chunk_size as int,
                    (ranges - r) as nat,
                ),
            decreases ranges - r,
        {
            if data.len() < 2 || pos > data.len() - 2 {
                return true;
            }
            if !is_block_readable(data, pos, chunk_size) {
                return false;
            }
            assert(data.len() == data@.len());
            pos = pos + 2 + 2 * data[pos + 1] as usize + 128 * data[pos] as usize;
            r = r + 1;
        }
        if !fit {
            return false;
        }
        c = c + 1;
    }
    true
}

} // verus!
