//! What decompressing a block gives back of what was compressed.

use crate::bits::{
    has_bit, lemma_byte_is_sum_of_bits, lemma_field_bit, lemma_mod_bit, lemma_pair_bit,
    lemma_same_bits, lemma_shift_and_mask, lemma_small_has_no_high_bit,
};
use crate::bytes::u16_at;
use crate::gdm_block::{
    bitmap_of, block_encodable, block_len, block_pixel, block_readable, decoded_block,
    encoded_block, field_value, lemma_palette, packed_bit, packed_bitmap, packed_byte,
    palette_bytes, palette_codes, palette_entry, palette_of, raw_depth,
};
use vstd::arithmetic::power2::*;
use vstd::prelude::*;

verus! {

/// The bits of a byte of a bitmap.
pub proof fn lemma_packed_byte_bit(codes: Seq<u16>, depth: int, i: int, j: int)
    requires
        0 <= j < 8,
    ensures
        has_bit(packed_byte(codes, depth, i) as u16, j) <==> packed_bit(codes, depth, 8 * i + j),
{
    lemma_byte_is_sum_of_bits(packed_byte(codes, depth, i));
    assert(packed_bit(codes, depth, 8 * i) == packed_bit(codes, depth, 8 * i + 0));
}

/// The bits of a field are those of the bitmap, but for those that lie beyond the two bytes that
/// hold the field.
proof fn lemma_field_value_bit(bitmap: Seq<u8>, depth: int, k: int, p: int)
    requires
        0 < depth < 16,
        bitmap.len() == 128 * depth,
        0 <= k < 1024,
        0 <= p < 16,
    ensures
        has_bit(field_value(bitmap, depth, k), p) <==> p < depth && (k * depth) % 8 + p < 16
            && has_bit(bitmap[(k * depth + p) / 8] as u16, (k * depth + p) % 8),
{
    let start = k * depth;
    let i = start / 8;
    let off = start % 8;
    assert(0 <= start && start + depth <= 1024 * depth) by (nonlinear_arith)
        requires
            0 <= k < 1024,
            0 < depth,
            start == k * depth,
    ;
    let low = bitmap[i];
    let high = if i + 1 < bitmap.len() {
        bitmap[i + 1]
    } else {
        0u8
    };
    let raw = (low + 256 * high) as u16;
    lemma_shift_and_mask(raw, off as u16, depth as u16);
    lemma_field_bit(raw, off as u16, depth as u16, p);
    if p < depth && off + p < 16 {
        lemma_pair_bit(low, high, off + p);
    }
}

/// Fields that do not overlap keep their bits apart.
proof fn lemma_packed_bit_of_field(codes: Seq<u16>, depth: int, k: int, p: int)
    requires
        0 < depth < 16,
        0 <= k < codes.len(),
        0 <= p < depth,
        (k * depth) % 8 + p < 16,
        forall|i: int| 0 <= i < codes.len() ==> #[trigger] codes[i] < pow2(depth as nat),
    ensures
        packed_bit(codes, depth, k * depth + p) <==> has_bit(codes[k], p),
{
    let pos = k * depth + p;
    if packed_bit(codes, depth, pos) {
        let (k2, p2) = choose|k2: int, p2: int|
            #![trigger has_bit(codes[k2], p2)]
            0 <= k2 < codes.len() && (k2 * depth) % 8 + p2 < 16 && k2 * depth + p2 == pos
                && has_bit(codes[k2], p2);
        if p2 >= depth {
            lemma_small_has_no_high_bit(codes[k2], depth as nat, p2);
        }
        assert(k2 == k) by (nonlinear_arith)
            requires
                0 < depth,
                0 <= p < depth,
                0 <= p2 < depth,
                k2 * depth + p2 == k * depth + p,
        ;
    }
}

/// Where no code needs more than `depth` bits, field `k` of the bitmap is code `k`, but for the
/// bits that do not fit in the two bytes that hold the field.
proof fn lemma_field_of_packed(codes: Seq<u16>, depth: int, k: int, p: int)
    requires
        0 < depth < 16,
        codes.len() <= 1024,
        0 <= k < codes.len(),
        0 <= p < 16,
        forall|i: int| 0 <= i < codes.len() ==> #[trigger] codes[i] < pow2(depth as nat),
    ensures
        has_bit(field_value(packed_bitmap(codes, depth), depth, k), p) <==> has_bit(codes[k], p)
            && (k * depth) % 8 + p < 16,
{
    let bitmap = packed_bitmap(codes, depth);
    let start = k * depth;
    assert(0 <= start && start + depth <= 1024 * depth) by (nonlinear_arith)
        requires
            0 <= k < 1024,
            0 < depth,
            start == k * depth,
    ;
    lemma_field_value_bit(bitmap, depth, k, p);
    if p >= depth {
        lemma_small_has_no_high_bit(codes[k], depth as nat, p);
    } else if start % 8 + p < 16 {
        lemma_packed_byte_bit(codes, depth, (start + p) / 8, (start + p) % 8);
        lemma_packed_bit_of_field(codes, depth, k, p);
    }
}

/// What is left of a value that a bitmap of `depth`-bit fields holds as field `k`: the bits that
/// fit in the two bytes that hold the field.
pub open spec fn surviving_value(value: u16, depth: int, k: int) -> u16 {
    (value as int % pow2((16 - (k * depth) % 8) as nat) as int) as u16
}

/// Field `k` of the bitmap is what is left of code `k`.
proof fn lemma_field_survives(codes: Seq<u16>, depth: int, k: int)
    requires
        0 < depth < 16,
        codes.len() <= 1024,
        0 <= k < codes.len(),
        forall|i: int| 0 <= i < codes.len() ==> #[trigger] codes[i] < pow2(depth as nat),
    ensures
        field_value(packed_bitmap(codes, depth), depth, k) == surviving_value(codes[k], depth, k),
{
    let field = field_value(packed_bitmap(codes, depth), depth, k);
    let left = surviving_value(codes[k], depth, k);
    assert forall|p: int| 0 <= p < 16 implies (has_bit(field, p) <==> has_bit(left, p)) by {
        lemma_field_of_packed(codes, depth, k, p);
        lemma_mod_bit(codes[k], 16 - (k * depth) % 8, p);
    }
    lemma_same_bits(field, left);
}

proof fn lemma_small_survives(value: u16, depth: int, k: int)
    requires
        value < pow2((16 - (k * depth) % 8) as nat),
    ensures
        surviving_value(value, depth, k) == value,
{
    vstd::arithmetic::div_mod::lemma_small_mod(
        value as nat,
        pow2((16 - (k * depth) % 8) as nat),
    );
}

proof fn lemma_palette_bytes(values: Seq<u16>)
    ensures
        palette_bytes(values).len() == 2 * values.len(),
        forall|i: int|
            0 <= i < values.len() ==> #[trigger] u16_at(palette_bytes(values), 2 * i) == values[i],
    decreases values.len(),
{
    if values.len() > 0 {
        let init = values.drop_last();
        lemma_palette_bytes(init);
        assert forall|i: int| 0 <= i < values.len() implies #[trigger] u16_at(
            palette_bytes(values),
            2 * i,
        ) == values[i] by {
            if i < init.len() {
                assert(u16_at(palette_bytes(init), 2 * i) == init[i]);
            }
        }
    }
}

/// Whether a block of these pixels can be read back at all: it is no wider than 15 bits, and no
/// value is wider than the block.
pub open spec fn block_decodable(pixels: Seq<u16>, range_bits: int) -> bool {
    ||| palette_of(pixels).len() <= 4
    ||| {
        &&& raw_depth(pixels, range_bits) < 16
        &&& forall|k: int|
            0 <= k < pixels.len() ==> #[trigger] pixels[k] < pow2(
                raw_depth(pixels, range_bits) as nat,
            )
    }
}

/// What reading a block back gives for pixel `k`.
pub open spec fn read_back_pixel(pixels: Seq<u16>, range_bits: int, k: int) -> u16 {
    if palette_of(pixels).len() <= 4 {
        pixels[k]
    } else {
        surviving_value(pixels[k], raw_depth(pixels, range_bits), k)
    }
}

/// A compressed block can be read wherever it stands, it is as long as it says, and its pixels are
/// those that were compressed, but for the bits of a raw value that lie beyond the two bytes in
/// which its field starts.
pub proof fn law_block_read_back(
    prefix: Seq<u8>,
    pixels: Seq<u16>,
    chunk_size: int,
    range_bits: int,
    suffix: Seq<u8>,
)
    requires
        0 <= chunk_size,
        pixels.len() == chunk_size * chunk_size,
        0 <= range_bits,
        block_encodable(pixels, chunk_size, range_bits),
        block_decodable(pixels, range_bits),
    ensures
        ({
            let block = encoded_block(pixels, chunk_size, range_bits);
            let data = prefix + block + suffix;
            let pos = prefix.len() as int;
            &&& block_readable(data, pos, chunk_size)
            &&& block_len(data, pos) == block.len()
            &&& decoded_block(data, pos, chunk_size) == Seq::new(
                pixels.len(),
                |k: int| read_back_pixel(pixels, range_bits, k),
            )
        }),
{
    let values = palette_of(pixels);
    let block = encoded_block(pixels, chunk_size, range_bits);
    let data = prefix + block + suffix;
    let pos = prefix.len() as int;
    let expected = Seq::new(pixels.len(), |k: int| read_back_pixel(pixels, range_bits, k));
    lemma_palette(pixels);
    lemma2_to64();
    assert(forall|i: int| 0 <= i < block.len() ==> data[pos + i] == #[trigger] block[i]);
    assert(data[pos] == block[0]);
    assert(data[pos + 1] == block[1]);
    assert forall|k: int| 0 <= k < pixels.len() implies #[trigger] values.contains(pixels[k]) by {
        assert(pixels.contains(pixels[k]));
    }
    if values.len() == 1 {
        assert(data[pos + 2] == block[2]);
        assert(data[pos + 3] == block[3]);
        assert(palette_entry(data, pos, 0) == values[0]);
        assert forall|k: int| 0 <= k < pixels.len() implies block_pixel(data, pos, k)
            == #[trigger] expected[k] by {
            assert(values.contains(pixels[k]));
        }
    } else if values.len() <= 4 {
        let depth = if values.len() <= 2 {
            1int
        } else {
            2int
        };
        let codes = palette_codes(pixels, values);
        let bitmap = packed_bitmap(codes, depth);
        lemma_palette_bytes(values);
        assert(block_len(data, pos) == block.len());
        assert(bitmap_of(data, pos) =~= bitmap);
        assert forall|i: int| 0 <= i < codes.len() implies #[trigger] codes[i] < pow2(
            depth as nat,
        ) by {
            assert(values.contains(pixels[i]));
        }
        assert forall|i: int| 0 <= i < values.len() implies #[trigger] palette_entry(data, pos, i)
            == values[i] by {
            assert(data[pos + (2 + 2 * i)] == block[2 + 2 * i]);
            assert(data[pos + (3 + 2 * i)] == block[3 + 2 * i]);
            assert(u16_at(palette_bytes(values), 2 * i) == values[i]);
        }
        assert forall|k: int| 0 <= k < pixels.len() implies block_pixel(data, pos, k)
            == #[trigger] expected[k] by {
            assert(values.contains(pixels[k]));
            lemma_field_survives(codes, depth, k);
            assert(codes[k] < pow2((16 - (k * depth) % 8) as nat)) by {
                assert(codes[k] < 4);
                if (16 - (k * depth) % 8) > 2 {
                    lemma_pow2_strictly_increases(2, (16 - (k * depth) % 8) as nat);
                }
            }
            lemma_small_survives(codes[k], depth, k);
            assert(palette_entry(data, pos, codes[k] as int) == values[codes[k] as int]);
        }
    } else {
        let depth = raw_depth(pixels, range_bits);
        let bitmap = packed_bitmap(pixels, depth);
        assert(block_len(data, pos) == block.len());
        assert(bitmap_of(data, pos) =~= bitmap);
        assert forall|k: int| 0 <= k < pixels.len() implies block_pixel(data, pos, k)
            == #[trigger] expected[k] by {
            lemma_field_survives(pixels, depth, k);
        }
    }
    assert(decoded_block(data, pos, chunk_size) =~= expected);
}

/// Whether nothing of these pixels is lost in a block: either they have at most four distinct
/// values, or every value fits in what the two bytes in which its field starts leave it.
pub open spec fn block_lossless(pixels: Seq<u16>, range_bits: int) -> bool {
    &&& block_decodable(pixels, range_bits)
    &&& palette_of(pixels).len() > 4 ==> forall|k: int|
        0 <= k < pixels.len() ==> #[trigger] pixels[k] < pow2(
            (16 - (k * raw_depth(pixels, range_bits)) % 8) as nat,
        )
}

/// Reading back a block gives exactly the pixels that were compressed wherever each of them fits.
pub proof fn law_block_round_trip(
    prefix: Seq<u8>,
    pixels: Seq<u16>,
    chunk_size: int,
    range_bits: int,
    suffix: Seq<u8>,
)
    requires
        0 <= chunk_size,
        pixels.len() == chunk_size * chunk_size,
        0 <= range_bits,
        block_encodable(pixels, chunk_size, range_bits),
        block_lossless(pixels, range_bits),
    ensures
        decoded_block(
            prefix + encoded_block(pixels, chunk_size, range_bits) + suffix,
            prefix.len() as int,
            chunk_size,
        ) == pixels,
{
    law_block_read_back(prefix, pixels, chunk_size, range_bits, suffix);
    assert forall|k: int| 0 <= k < pixels.len() implies read_back_pixel(pixels, range_bits, k)
        == #[trigger] pixels[k] by {
        if palette_of(pixels).len() > 4 {
            lemma_small_survives(pixels[k], raw_depth(pixels, range_bits), k);
        }
    }
    assert(Seq::new(pixels.len(), |k: int| read_back_pixel(pixels, range_bits, k)) =~= pixels);
}

} // verus!
