//! Compressed blocks of the GDM format.

use crate::bytes::{push_u16_le, read_u16_le, u16_at, u16_le};
use crate::bits::{
    has_bit, lemma_byte_is_sum_of_bits, lemma_high_part_bit, lemma_low_part_bit, lemma_or_bit,
    lemma_shift_and_mask, weighted,
};
use vstd::arithmetic::power2::*;
use vstd::prelude::*;

verus! {

/// Whether bit `pos` of a bitmap of `depth`-bit fields is set by one of `codes`.
///
/// Field `k` starts at bit `k * depth` and is written to the two bytes that begin with the one
/// that holds its first bit. What reaches beyond those two bytes is dropped.
pub open spec fn packed_bit(codes: Seq<u16>, depth: int, pos: int) -> bool {
    exists|k: int, p: int|
        #![trigger has_bit(codes[k], p)]
        0 <= k < codes.len() && (k * depth) % 8 + p < 16 && k * depth + p == pos && has_bit(
            codes[k],
            p,
        )
}

/// Byte `i` of the bitmap of `codes`.
pub open spec fn packed_byte(codes: Seq<u16>, depth: int, i: int) -> u8 {
    (weighted(packed_bit(codes, depth, 8 * i), 1) + weighted(packed_bit(codes, depth, 8 * i + 1), 2)
        + weighted(packed_bit(codes, depth, 8 * i + 2), 4) + weighted(
        packed_bit(codes, depth, 8 * i + 3),
        8,
    ) + weighted(packed_bit(codes, depth, 8 * i + 4), 16) + weighted(
        packed_bit(codes, depth, 8 * i + 5),
        32,
    ) + weighted(packed_bit(codes, depth, 8 * i + 6), 64) + weighted(
        packed_bit(codes, depth, 8 * i + 7),
        128,
    )) as u8
}

/// The bitmap of `codes`: 128 bytes for each bit of depth.
pub open spec fn packed_bitmap(codes: Seq<u16>, depth: int) -> Seq<u8> {
    Seq::new((128 * depth) as nat, |i: int| packed_byte(codes, depth, i))
}

proof fn lemma_packed_bit_push(codes: Seq<u16>, code: u16, depth: int, pos: int)
    ensures
        packed_bit(codes.push(code), depth, pos) <==> packed_bit(codes, depth, pos) || {
            let start = codes.len() * depth;
            start % 8 + (pos - start) < 16 && has_bit(code, pos - start)
        },
{
    let longer = codes.push(code);
    let start = codes.len() * depth;
    if packed_bit(codes, depth, pos) {
        let (k, p) = choose|k: int, p: int|
            #![trigger has_bit(codes[k], p)]
            0 <= k < codes.len() && (k * depth) % 8 + p < 16 && k * depth + p == pos && has_bit(
                codes[k],
                p,
            );
        assert(has_bit(longer[k], p));
    }
    if start % 8 + (pos - start) < 16 && has_bit(code, pos - start) {
        assert(has_bit(longer[codes.len() as int], pos - start));
    }
    if packed_bit(longer, depth, pos) {
        let (k, p) = choose|k: int, p: int|
            #![trigger has_bit(longer[k], p)]
            0 <= k < longer.len() && (k * depth) % 8 + p < 16 && k * depth + p == pos && has_bit(
                longer[k],
                p,
            );
        if k < codes.len() {
            assert(has_bit(codes[k], p));
        } else {
            assert(p == pos - start);
        }
    }
}

/// The first `count` of `codes` as a bitmap of `depth`-bit fields.
fn pack_bitmap(codes: &[u16], count: usize, depth: u8) -> (bitmap: Vec<u8>)
    requires
        count <= codes@.len(),
        count <= 1024,
        count > 0 ==> depth > 0,
    ensures
        bitmap@ == packed_bitmap(codes@.take(count as int), depth as int),
{
    let size: usize = depth as usize * 128;
    let mut bitmap: Vec<u8> = vec![0u8; size];
    assert forall|i: int, j: int| 0 <= i < size && 0 <= j < 8 implies (has_bit(bitmap@[i] as u16, j)
        <==> #[trigger] packed_bit(codes@.take(0), depth as int, 8 * i + j)) by {
        let s: u16 = j as u16;
        assert(((0u8 as u16) >> s) & 1 == 0u16) by (bit_vector);
    }
    let mut k: usize = 0;
    while k < count
        invariant
            k <= count,
            count <= codes@.len(),
            count <= 1024,
            count > 0 ==> depth > 0,
            size == depth * 128,
            bitmap@.len() == size,
            forall|i: int, j: int|
                0 <= i < size && 0 <= j < 8 ==> (has_bit(#[trigger] bitmap@[i] as u16, j)
                    <==> #[trigger] packed_bit(codes@.take(k as int), depth as int, 8 * i + j)),
        decreases count - k,
    {
        let ghost before = bitmap@;
        let val: u16 = codes[k];
        assert(0 <= k * depth < 1024 * depth && k * depth <= 1024 * 255) by (nonlinear_arith)
            requires
                k < 1024,
                0 < depth <= 255,
        ;
        let bit_pos: usize = k * (depth as usize);
        let byte_idx: usize = bit_pos / 8;
        let bit_offset: usize = bit_pos % 8;
        let low: u8 = (val << (bit_offset as u16)) as u8;
        let high: u8 = (val >> ((8 - bit_offset) as u16)) as u8;
        let first: u8 = bitmap[byte_idx];
        bitmap[byte_idx] = first | low;
        if byte_idx + 1 < bitmap.len() {
            let second: u8 = bitmap[byte_idx + 1];
            bitmap[byte_idx + 1] = second | high;
        }
        assert(codes@.take(k + 1) =~= codes@.take(k as int).push(val));
        assert forall|i: int, j: int| 0 <= i < size && 0 <= j < 8 implies (has_bit(
            #[trigger] bitmap@[i] as u16,
            j,
        ) <==> #[trigger] packed_bit(codes@.take(k + 1), depth as int, 8 * i + j)) by {
            let d = depth as int;
            let p = 8 * i + j - bit_pos;
            lemma_packed_bit_push(codes@.take(k as int), val, d, 8 * i + j);
            assert(has_bit(before[i] as u16, j) <==> packed_bit(
                codes@.take(k as int),
                d,
                8 * i + j,
            ));
            if i == byte_idx {
                lemma_or_bit(first, low, j);
                lemma_low_part_bit(val, bit_offset as int, j);
            } else if i == byte_idx + 1 {
                lemma_or_bit(before[i], high, j);
                lemma_high_part_bit(val, bit_offset as int, j);
            }
        }
        k = k + 1;
    }
    proof {
        let shown = codes@.take(count as int);
        assert forall|i: int| 0 <= i < size implies bitmap@[i] == packed_byte(
            shown,
            depth as int,
            i,
        ) by {
            lemma_byte_is_sum_of_bits(bitmap@[i]);
            assert forall|j: int| 0 <= j < 8 implies (has_bit(bitmap@[i] as u16, j)
                <==> #[trigger] packed_bit(shown, depth as int, 8 * i + j)) by {}
            assert(packed_bit(shown, depth as int, 8 * i) == packed_bit(
                shown,
                depth as int,
                8 * i + 0,
            ));
        }
        assert(bitmap@ =~= packed_bitmap(shown, depth as int));
    }
    bitmap
}

/// The values below `n` that occur in `pixels`, in increasing order.
pub open spec fn values_below(pixels: Seq<u16>, n: nat) -> Seq<u16>
    decreases n,
{
    if n == 0 {
        Seq::empty()
    } else {
        let smaller = values_below(pixels, (n - 1) as nat);
        if pixels.contains((n - 1) as u16) {
            smaller.push((n - 1) as u16)
        } else {
            smaller
        }
    }
}

/// The distinct values of `pixels`, in increasing order.
pub open spec fn palette_of(pixels: Seq<u16>) -> Seq<u16> {
    values_below(pixels, 65536)
}

/// Every value is larger than those before it.
pub open spec fn increasing(values: Seq<u16>) -> bool {
    forall|i: int, j: int| 0 <= i < j < values.len() ==> values[i] < values[j]
}

proof fn lemma_values_below(pixels: Seq<u16>, n: nat)
    requires
        n <= 65536,
    ensures
        increasing(values_below(pixels, n)),
        forall|i: int|
            0 <= i < values_below(pixels, n).len() ==> #[trigger] values_below(pixels, n)[i] < n
                && pixels.contains(values_below(pixels, n)[i]),
        forall|v: u16|
            v < n && #[trigger] pixels.contains(v) ==> values_below(pixels, n).contains(v),
    decreases n,
{
    if n > 0 {
        let smaller = values_below(pixels, (n - 1) as nat);
        let all = values_below(pixels, n);
        lemma_values_below(pixels, (n - 1) as nat);
        assert forall|v: u16| v < n && #[trigger] pixels.contains(v) implies all.contains(v) by {
            if v < n - 1 {
                let i = smaller.index_of(v);
                assert(smaller.contains(v));
                assert(all[i] == v);
            } else {
                assert(all[all.len() - 1] == v);
            }
        }
    }
}

/// The palette is increasing and holds exactly the values of the pixels.
pub proof fn lemma_palette(pixels: Seq<u16>)
    ensures
        increasing(palette_of(pixels)),
        forall|v: u16| #[trigger] palette_of(pixels).contains(v) <==> pixels.contains(v),
{
    lemma_values_below(pixels, 65536);
}

/// Two increasing lists of the same values are the same.
pub proof fn lemma_increasing_unique(a: Seq<u16>, b: Seq<u16>)
    requires
        increasing(a),
        increasing(b),
        forall|v: u16| #[trigger] a.contains(v) <==> b.contains(v),
    ensures
        a == b,
    decreases a.len(),
{
    if a.len() == 0 {
        if b.len() > 0 {
            assert(b.contains(b[0]));
            assert(!a.contains(b[0]));
        }
        assert(a =~= b);
    } else {
        let x = a.last();
        assert(a.contains(x));
        let i = b.index_of(x);
        let y = b.last();
        assert(b.contains(y));
        assert(a.contains(y));
        let j = a.index_of(y);
        assert(x == y);
        let a1 = a.drop_last();
        let b1 = b.drop_last();
        assert forall|v: u16| #[trigger] a1.contains(v) <==> b1.contains(v) by {
            if a1.contains(v) {
                let m = a1.index_of(v);
                assert(a[m] == v);
                assert(a.contains(v));
                assert(b.contains(v));
                let l = b.index_of(v);
                assert(b1[l] == v);
            }
            if b1.contains(v) {
                let m = b1.index_of(v);
                assert(b[m] == v);
                assert(b.contains(v));
                assert(a.contains(v));
                let l = a.index_of(v);
                assert(a1[l] == v);
            }
        }
        lemma_increasing_unique(a1, b1);
        assert(a =~= a1.push(x));
        assert(b =~= b1.push(x));
    }
}

/// Adds `v` to an increasing list, unless it is there.
fn insert_value(values: &mut Vec<u16>, v: u16)
    requires
        increasing(old(values)@),
    ensures
        increasing(final(values)@),
        forall|x: u16|
            #[trigger] final(values)@.contains(x) <==> old(values)@.contains(x) || x == v,
{
    let ghost before = values@;
    let mut lo: usize = 0;
    let mut hi: usize = values.len();
    while lo < hi
        invariant
            values@ == before,
            lo <= hi <= values@.len(),
            increasing(values@),
            forall|i: int| 0 <= i < lo ==> values@[i] < v,
            forall|i: int| hi <= i < values@.len() ==> v <= values@[i],
        decreases hi - lo,
    {
        let mid: usize = lo + (hi - lo) / 2;
        if values[mid] < v {
            lo = mid + 1;
        } else {
            hi = mid;
        }
    }
    if lo < values.len() && values[lo] == v {
        assert(before.contains(v));
        return ;
    }
    values.insert(lo, v);
    proof {
        assert(values@ == before.insert(lo as int, v));
        assert forall|x: u16| #[trigger] values@.contains(x) <==> before.contains(x) || x == v by {
            if values@.contains(x) {
                let i = values@.index_of(x);
                if i < lo {
                    assert(before[i] == x);
                } else if i > lo {
                    assert(before[i - 1] == x);
                }
            }
            if before.contains(x) {
                let i = before.index_of(x);
                if i < lo {
                    assert(values@[i] == x);
                } else {
                    assert(values@[i + 1] == x);
                }
            }
            assert(values@[lo as int] == v);
        }
    }
}

/// The distinct values of `pixels`, in increasing order.
fn distinct_values(pixels: &[u16]) -> (values: Vec<u16>)
    ensures
        values@ == palette_of(pixels@),
{
    let mut values: Vec<u16> = Vec::new();
    let mut i: usize = 0;
    while i < pixels.len()
        invariant
            i <= pixels@.len(),
            increasing(values@),
            forall|v: u16| #[trigger] values@.contains(v) <==> pixels@.take(i as int).contains(v),
        decreases pixels@.len() - i,
    {
        let ghost before = values@;
        insert_value(&mut values, pixels[i]);
        proof {
            let shorter = pixels@.take(i as int);
            let longer = pixels@.take(i + 1);
            assert forall|v: u16| #[trigger] values@.contains(v) <==> longer.contains(v) by {
                assert(before.contains(v) <==> shorter.contains(v));
                if shorter.contains(v) {
                    assert(longer[shorter.index_of(v)] == v);
                }
                if longer.contains(v) {
                    let m = longer.index_of(v);
                    if m < i {
                        assert(shorter[m] == v);
                    }
                }
                assert(longer[i as int] == pixels@[i as int]);
            }
        }
        i = i + 1;
    }
    proof {
        assert(pixels@.take(i as int) =~= pixels@);
        lemma_palette(pixels@);
        lemma_increasing_unique(values@, palette_of(pixels@));
    }
    values
}

/// The number of bits that `v` needs.
pub open spec fn bit_width(v: nat) -> nat
    decreases v,
{
    if v == 0 {
        0
    } else {
        1 + bit_width(v / 2)
    }
}

/// A number below `2^n` needs at most `n` bits.
pub proof fn lemma_bit_width_at_most(v: nat, n: nat)
    requires
        v < pow2(n),
    ensures
        bit_width(v) <= n,
    decreases n,
{
    if v > 0 {
        lemma2_to64();
        if n > 0 {
            lemma_pow2_unfold(n);
            lemma_bit_width_at_most(v / 2, (n - 1) as nat);
        }
    }
}

fn count_bits(v: u16) -> (bits: usize)
    ensures
        bits == bit_width(v as nat),
        bits <= 16,
{
    let mut rest: u16 = v;
    let mut bits: usize = 0;
    proof {
        lemma2_to64();
    }
    while rest > 0
        invariant
            bits + bit_width(rest as nat) == bit_width(v as nat),
            bits <= 16,
            rest > 0 ==> rest * pow2(bits as nat) <= v,
        decreases rest,
    {
        proof {
            lemma_pow2_unfold((bits + 1) as nat);
            lemma2_to64();
            if bits == 16 {
                assert(rest * 65536 >= 65536) by (nonlinear_arith)
                    requires
                        rest >= 1,
                ;
            }
            assert(rest / 2 * (2 * pow2(bits as nat)) <= rest * pow2(bits as nat))
                by (nonlinear_arith)
                requires
                    pow2(bits as nat) >= 0,
            ;
        }
        rest = rest / 2;
        bits = bits + 1;
    }
    bits
}

/// The bytes of a palette.
pub open spec fn palette_bytes(values: Seq<u16>) -> Seq<u8>
    decreases values.len(),
{
    if values.len() == 0 {
        Seq::empty()
    } else {
        palette_bytes(values.drop_last()) + u16_le(values.last())
    }
}

/// The pixels that a block shows: at most `chunk_size * chunk_size` of them.
pub open spec fn shown_pixels(pixels: Seq<u16>, chunk_size: int) -> Seq<u16> {
    if pixels.len() <= chunk_size * chunk_size {
        pixels
    } else {
        pixels.take(chunk_size * chunk_size)
    }
}

/// The place of each pixel's value in the palette.
pub open spec fn palette_codes(pixels: Seq<u16>, values: Seq<u16>) -> Seq<u16> {
    Seq::new(pixels.len(), |k: int| values.index_of(pixels[k]) as u16)
}

/// The depth of a block that stores its values directly: the full width of its range, or that of
/// the largest value where the range is too narrow. The depth is stored in one byte.
pub open spec fn raw_depth(pixels: Seq<u16>, range_bits: int) -> int {
    let needed = bit_width(palette_of(pixels).last() as nat) as int;
    (if range_bits >= needed {
        range_bits
    } else {
        needed
    }) % 256
}

/// Whether `encode_gdm_block` is defined: a block that needs a bitmap shows at most 1024 pixels,
/// and the depth of one that stores its values directly is not a multiple of 256.
pub open spec fn block_encodable(pixels: Seq<u16>, chunk_size: int, range_bits: int) -> bool {
    &&& chunk_size * chunk_size <= usize::MAX
    &&& {
        ||| palette_of(pixels).len() == 1
        ||| shown_pixels(pixels, chunk_size).len() == 0
        ||| {
            &&& shown_pixels(pixels, chunk_size).len() <= 1024
            &&& palette_of(pixels).len() > 4 ==> raw_depth(pixels, range_bits) > 0
        }
    }
}

/// The block that stores `pixels`.
///
/// The first byte is the depth, the second the number of palette entries. A block of a single
/// value has no bitmap, one of up to four values stores their places in the palette, and any other
/// stores the values themselves.
pub open spec fn encoded_block(pixels: Seq<u16>, chunk_size: int, range_bits: int) -> Seq<u8> {
    let values = palette_of(pixels);
    let shown = shown_pixels(pixels, chunk_size);
    if values.len() == 1 {
        seq![0u8, 1u8] + u16_le(values[0])
    } else if values.len() <= 4 {
        let depth = if values.len() <= 2 {
            1int
        } else {
            2int
        };
        seq![depth as u8, values.len() as u8] + palette_bytes(values) + packed_bitmap(
            palette_codes(shown, values),
            depth,
        )
    } else {
        let depth = raw_depth(pixels, range_bits);
        seq![depth as u8, 0u8] + packed_bitmap(shown, depth)
    }
}

fn push_palette(out: &mut Vec<u8>, values: &Vec<u16>)
    ensures
        final(out)@ == old(out)@ + palette_bytes(values@),
{
    let mut i: usize = 0;
    assert(out@ =~= old(out)@ + palette_bytes(values@.take(0)));
    while i < values.len()
        invariant
            i <= values@.len(),
            out@ == old(out)@ + palette_bytes(values@.take(i as int)),
        decreases values@.len() - i,
    {
        assert(values@.take(i + 1).drop_last() =~= values@.take(i as int));
        push_u16_le(out, values[i]);
        assert(out@ =~= old(out)@ + palette_bytes(values@.take(i + 1)));
        i = i + 1;
    }
    assert(values@.take(i as int) =~= values@);
}

/// The places in the palette of the first `count` pixels.
fn lookup_codes(pixels: &[u16], count: usize, values: &Vec<u16>) -> (codes: Vec<u16>)
    requires
        count <= pixels@.len(),
        values@ == palette_of(pixels@),
        values@.len() <= 4,
    ensures
        codes@ == palette_codes(pixels@.take(count as int), values@),
{
    let mut codes: Vec<u16> = Vec::new();
    let mut k: usize = 0;
    proof {
        lemma_palette(pixels@);
    }
    while k < count
        invariant
            k <= count <= pixels@.len(),
            increasing(values@),
            values@.len() <= 4,
            forall|v: u16| #[trigger] values@.contains(v) <==> pixels@.contains(v),
            codes@ == palette_codes(pixels@.take(k as int), values@),
        decreases count - k,
    {
        let v: u16 = pixels[k];
        assert(values@.contains(v));
        let ghost place = values@.index_of(v);
        let mut i: usize = 0;
        while values[i] != v
            invariant
                increasing(values@),
                values@.len() <= 4,
                0 <= place < values@.len(),
                values@[place] == v,
                i <= place,
            decreases place - i,
        {
            i = i + 1;
        }
        codes.push(i as u16);
        assert(codes@ =~= palette_codes(pixels@.take(k + 1), values@));
        k = k + 1;
    }
    codes
}

/// Compresses `pixels` to one block, for a range that is `range_bits` wide.
pub fn encode_gdm_block(pixels: &[u16], chunk_size: usize, range_bits: usize) -> (block: Vec<u8>)
    requires
        block_encodable(pixels@, chunk_size as int, range_bits as int),
    ensures
        block@ == encoded_block(pixels@, chunk_size as int, range_bits as int),
{
    let total: usize = chunk_size * chunk_size;
    let values: Vec<u16> = distinct_values(pixels);
    let count: usize = if pixels.len() <= total {
        pixels.len()
    } else {
        total
    };
    assert(pixels@.take(count as int) =~= shown_pixels(pixels@, chunk_size as int));
    let mut out: Vec<u8> = Vec::new();
    if values.len() == 1 {
        out.push(0u8);
        out.push(1u8);
        push_u16_le(&mut out, values[0]);
    } else if values.len() <= 4 {
        let depth: u8 = if values.len() <= 2 {
            1
        } else {
            2
        };
        out.push(depth);
        out.push(values.len() as u8);
        push_palette(&mut out, &values);
        let codes: Vec<u16> = lookup_codes(pixels, count, &values);
        let mut bitmap: Vec<u8> = pack_bitmap(codes.as_slice(), count, depth);
        assert(codes@.take(count as int) =~= codes@);
        out.append(&mut bitmap);
    } else {
        let needed: usize = count_bits(values[values.len() - 1]);
        let width: usize = if range_bits >= needed {
            range_bits
        } else {
            needed
        };
        let depth: u8 = (width % 256) as u8;
        out.push(depth);
        out.push(0u8);
        let mut bitmap: Vec<u8> = pack_bitmap(pixels, count, depth);
        out.append(&mut bitmap);
    }
    assert(out@ =~= encoded_block(pixels@, chunk_size as int, range_bits as int));
    out
}

/// The number of palette entries of the block at `pos`.
pub open spec fn palette_count(data: Seq<u8>, pos: int) -> int {
    data[pos + 1] as int
}

/// Where the bitmap of the block at `pos` starts.
pub open spec fn bitmap_start(data: Seq<u8>, pos: int) -> int {
    pos + 2 + 2 * palette_count(data, pos)
}

/// The length of the block at `pos`.
pub open spec fn block_len(data: Seq<u8>, pos: int) -> int {
    2 + 2 * palette_count(data, pos) + 128 * data[pos]
}

/// Entry `i` of the palette of the block at `pos`.
pub open spec fn palette_entry(data: Seq<u8>, pos: int, i: int) -> u16 {
    u16_at(data, pos + 2 + 2 * i) as u16
}

/// The bitmap of the block at `pos`.
pub open spec fn bitmap_of(data: Seq<u8>, pos: int) -> Seq<u8> {
    data.subrange(bitmap_start(data, pos), pos + block_len(data, pos))
}

/// Whether the block at `pos` can be read: it lies within `data`, and where it has a bitmap its
/// depth is below 16 and the bitmap covers the chunk.
pub open spec fn block_readable(data: Seq<u8>, pos: int, chunk_size: int) -> bool {
    &&& 0 <= pos
    &&& pos + 2 <= data.len()
    &&& bitmap_start(data, pos) <= data.len()
    &&& chunk_size * chunk_size <= usize::MAX
    &&& data[pos] > 0 ==> {
        &&& pos + block_len(data, pos) <= data.len()
        &&& data[pos] < 16
        &&& chunk_size * chunk_size <= 1024
    }
}

/// Field `k` of a bitmap of `depth`-bit fields, read from the two bytes that begin with the one
/// that holds its first bit.
pub open spec fn field_value(bitmap: Seq<u8>, depth: int, k: int) -> u16 {
    let start = k * depth;
    let i = start / 8;
    let pair = bitmap[i] + (if i + 1 < bitmap.len() {
        256 * bitmap[i + 1]
    } else {
        0
    });
    ((pair / pow2((start % 8) as nat) as int) % pow2(depth as nat) as int) as u16
}

/// Pixel `k` of the block at `pos`.
pub open spec fn block_pixel(data: Seq<u8>, pos: int, k: int) -> u16 {
    let depth = data[pos] as int;
    let count = palette_count(data, pos);
    if depth == 0 {
        if count > 0 {
            palette_entry(data, pos, 0)
        } else {
            0
        }
    } else {
        let field = field_value(bitmap_of(data, pos), depth, k);
        if depth <= 2 && count > 0 {
            if field < count {
                palette_entry(data, pos, field as int)
            } else {
                0
            }
        } else {
            field
        }
    }
}

/// The pixels of the block at `pos`.
pub open spec fn decoded_block(data: Seq<u8>, pos: int, chunk_size: int) -> Seq<u16> {
    Seq::new((chunk_size * chunk_size) as nat, |k: int| block_pixel(data, pos, k))
}

/// Reads field `k` of the bitmap that fills `data` from `start` to `end`.
fn read_field(data: &[u8], start: usize, end: usize, depth: usize, k: usize) -> (field: u16)
    requires
        0 < depth < 16,
        k < 1024,
        start <= end <= data@.len(),
        end - start == 128 * depth,
    ensures
        field == field_value(data@.subrange(start as int, end as int), depth as int, k as int),
{
    let ghost bitmap = data@.subrange(start as int, end as int);
    assert(0 <= k * depth < 1024 * depth) by (nonlinear_arith)
        requires
            k < 1024,
            0 < depth,
    ;
    let bit_pos: usize = k * depth;
    let byte_idx: usize = bit_pos / 8;
    let bit_offset: usize = bit_pos % 8;
    let low: u16 = data[start + byte_idx] as u16;
    let mut raw: u16 = low;
    if byte_idx + 1 < end - start {
        let high: u16 = data[start + byte_idx + 1] as u16;
        raw = low | (high << 8u16);
        assert(low < 256 && high < 256 ==> low | (high << 8u16) == low + 256 * high)
            by (bit_vector);
    }
    proof {
        lemma_shift_and_mask(raw, bit_offset as u16, depth as u16);
    }
    let mask: u16 = (1u16 << (depth as u16)) - 1;
    (raw >> (bit_offset as u16)) & mask
}

/// Expands the block at `pos`, and returns its pixels and its length.
pub fn decode_gdm_block(data: &[u8], pos: usize, chunk_size: usize) -> (res: (Vec<u16>, usize))
    requires
        block_readable(data@, pos as int, chunk_size as int),
    ensures
        res.0@ == decoded_block(data@, pos as int, chunk_size as int),
        res.1 == block_len(data@, pos as int),
{
    assert(data.len() == data@.len());
    let depth: usize = data[pos] as usize;
    let count: usize = data[pos + 1] as usize;
    let start: usize = pos + 2 + 2 * count;
    let total: usize = chunk_size * chunk_size;
    let mut pixels: Vec<u16> = Vec::new();
    if depth == 0 {
        let value: u16 = if count > 0 {
            read_u16_le(data, pos + 2)
        } else {
            0
        };
        pixels.resize(total, value);
    } else {
        let end: usize = start + 128 * depth;
        let mut k: usize = 0;
        while k < total
            invariant
                k <= total,
                total <= 1024,
                0 < depth < 16,
                depth == data@[pos as int],
                count == palette_count(data@, pos as int),
                start == bitmap_start(data@, pos as int),
                end == start + 128 * depth,
                end <= data@.len(),
                data@.len() <= usize::MAX,
                pixels@.len() == k,
                forall|j: int|
                    0 <= j < k ==> #[trigger] pixels@[j] == block_pixel(data@, pos as int, j),
            decreases total - k,
        {
            let field: u16 = read_field(data, start, end, depth, k);
            let value: u16 = if depth <= 2 && count > 0 {
                if (field as usize) < count {
                    read_u16_le(data, pos + 2 + 2 * (field as usize))
                } else {
                    0
                }
            } else {
                field
            };
            pixels.push(value);
            k = k + 1;
        }
    }
    assert(pixels@ =~= decoded_block(data@, pos as int, chunk_size as int));
    (pixels, 2 + 2 * count + 128 * depth)
}

} // verus!
