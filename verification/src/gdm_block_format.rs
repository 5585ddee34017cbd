//! What the bytes of a GDM block say.

use crate::bits::{has_bit, lemma_bit_is_digit, lemma_small_has_no_high_bit};
use crate::bytes::u16_le;
use crate::gdm_block::{
    bit_width, block_len, block_readable, decoded_block, encoded_block, increasing,
    lemma_bit_width_at_most, lemma_increasing_unique, lemma_palette, packed_bit, packed_bitmap,
    packed_byte, palette_bytes, palette_codes, palette_of, raw_depth, shown_pixels,
};
use crate::gdm_block_laws::lemma_packed_byte_bit;
use vstd::arithmetic::power2::*;
use vstd::prelude::*;

verus! {

/// What a block gives to a pixel. A block without a bitmap gives its first palette entry to every
/// pixel. Otherwise the bits of a pixel are taken from two neighboring bytes, least significant
/// first, and stand for a palette entry where there is a palette and at most two of them, and for
/// themselves where there is not.
pub proof fn law_block_pixels(data: Seq<u8>, pos: int, chunk_size: int, k: int)
    requires
        0 <= pos,
        pos + 2 <= data.len(),
        0 <= k < chunk_size * chunk_size,
        data[pos] > 0 ==> pos + 2 + 2 * data[pos + 1] + 128 * data[pos] <= data.len() && data[pos]
            < 16 && k < 1024,
    ensures
        decoded_block(data, pos, chunk_size).len() == chunk_size * chunk_size,
        block_len(data, pos) == 2 + 2 * data[pos + 1] + 128 * data[pos],
        ({
            let depth = data[pos] as int;
            let entries = data[pos + 1] as int;
            let bitmap = pos + 2 + 2 * entries;
            let i = k * depth / 8;
            let next = if i + 1 < 128 * depth {
                data[bitmap + i + 1] as int
            } else {
                0
            };
            let field = (data[bitmap + i] + 256 * next) / pow2((k * depth % 8) as nat) as int % pow2(
                depth as nat,
            ) as int;
            decoded_block(data, pos, chunk_size)[k] == (if depth == 0 && entries == 0 {
                0
            } else if depth == 0 {
                data[pos + 2] + 256 * data[pos + 3]
            } else if depth <= 2 && entries > 0 {
                if field < entries {
                    data[pos + 2 + 2 * field] + 256 * data[pos + 3 + 2 * field]
                } else {
                    0
                }
            } else {
                field
            })
        }),
{
    let depth = data[pos] as int;
    let entries = data[pos + 1] as int;
    if depth > 0 {
        let bitmap = pos + 2 + 2 * entries;
        let i = k * depth / 8;
        assert(0 <= k * depth < 1024 * depth) by (nonlinear_arith)
            requires
                0 <= k < 1024,
                0 < depth,
        ;
        let next = if i + 1 < 128 * depth {
            data[bitmap + i + 1] as int
        } else {
            0
        };
        let pair = data[bitmap + i] + 256 * next;
        let shifted = pair / pow2((k * depth % 8) as nat) as int;
        lemma_pow2_pos((k * depth % 8) as nat);
        lemma_pow2_pos(depth as nat);
        lemma2_to64();
        lemma_pow2_strictly_increases(depth as nat, 16);
        vstd::arithmetic::div_mod::lemma_mod_bound(shifted, pow2(depth as nat) as int);
    }
}

/// A block can be read where all of it is there; a bitmap is of at most 15 bits for a pixel, and of
/// at most 1024 pixels.
pub proof fn law_block_is_readable(data: Seq<u8>, pos: int, chunk_size: int)
    requires
        0 <= pos,
    ensures
        block_readable(data, pos, chunk_size) <==> {
            &&& pos + 2 <= data.len()
            &&& pos + 2 + 2 * data[pos + 1] <= data.len()
            &&& chunk_size * chunk_size <= usize::MAX
            &&& data[pos] == 0 || (data[pos] < 16 && chunk_size * chunk_size <= 1024 && pos + 2 + 2
                * data[pos + 1] + 128 * data[pos] <= data.len())
        },
{
}

/// Bit `b` of the bitmap of some codes belongs to the code whose field it lies in. It is dropped
/// where it lies beyond the two bytes in which the field starts.
proof fn lemma_bitmap_digit(codes: Seq<u16>, depth: int, b: int)
    requires
        0 < depth,
        codes.len() <= 1024,
        0 <= b < 1024 * depth,
        forall|i: int| 0 <= i < codes.len() ==> #[trigger] codes[i] < pow2(depth as nat),
    ensures
        b / 8 < 128 * depth,
        packed_bitmap(codes, depth).len() == 128 * depth,
        (packed_bitmap(codes, depth)[b / 8] as int / pow2((b % 8) as nat) as int) % 2 == (if b
            / depth < codes.len() && (b / depth * depth) % 8 + b % depth < 16 {
            (codes[b / depth] as int / pow2((b % depth) as nat) as int) % 2
        } else {
            0
        }),
{
    let k = b / depth;
    let p = b % depth;
    vstd::arithmetic::div_mod::lemma_fundamental_div_mod(b, depth);
    assert(depth * k == k * depth) by (nonlinear_arith);
    assert(k >= 0) by (nonlinear_arith)
        requires
            b >= 0,
            depth > 0,
            k == b / depth,
    ;
    let byte = packed_byte(codes, depth, b / 8);
    assert(packed_bitmap(codes, depth)[b / 8] == byte);
    lemma_packed_byte_bit(codes, depth, b / 8, b % 8);
    lemma_bit_is_digit(byte as u16, b % 8);
    assert(8 * (b / 8) + b % 8 == b);
    let owned = k < codes.len() && (k * depth) % 8 + p < 16;
    assert(packed_bit(codes, depth, b) <==> owned && has_bit(codes[k], p)) by {
        if packed_bit(codes, depth, b) {
            let (k2, p2) = choose|k2: int, p2: int|
                #![trigger has_bit(codes[k2], p2)]
                0 <= k2 < codes.len() && (k2 * depth) % 8 + p2 < 16 && k2 * depth + p2 == b
                    && has_bit(codes[k2], p2);
            if p2 >= depth {
                lemma_small_has_no_high_bit(codes[k2], depth as nat, p2);
            }
            assert(k2 == k) by (nonlinear_arith)
                requires
                    0 < depth,
                    0 <= p < depth,
                    0 <= p2 < depth,
                    k2 * depth + p2 == b,
                    k * depth + p == b,
            ;
        }
        if owned && has_bit(codes[k], p) {
            assert(k * depth + p == b);
        }
    }
    if owned {
        lemma_bit_is_digit(codes[k], p);
    }
}

proof fn lemma_palette_bytes(values: Seq<u16>, i: int)
    requires
        0 <= i < values.len(),
    ensures
        palette_bytes(values).len() == 2 * values.len(),
        palette_bytes(values)[2 * i] + 256 * palette_bytes(values)[2 * i + 1] == values[i],
    decreases values.len(),
{
    let less = values.drop_last();
    if i < less.len() {
        lemma_palette_bytes(less, i);
    } else if less.len() > 0 {
        lemma_palette_bytes(less, 0);
    } else {
        assert(palette_bytes(less) =~= Seq::<u8>::empty());
    }
    let v = values.last();
    assert(palette_bytes(values) == palette_bytes(less) + u16_le(v));
    assert(u16_le(v)[0] + 256 * u16_le(v)[1] == v);
}

proof fn lemma_palette_is(pixels: Seq<u16>, values: Seq<u16>)
    requires
        forall|i: int, j: int| 0 <= i < j < values.len() ==> values[i] < values[j],
        forall|v: u16| #[trigger] values.contains(v) <==> pixels.contains(v),
    ensures
        palette_of(pixels) == values,
{
    lemma_palette(pixels);
    assert(increasing(values));
    lemma_increasing_unique(palette_of(pixels), values);
}

/// A chunk of one value is stored as that value alone.
pub proof fn law_block_of_one_value(pixels: Seq<u16>, chunk_size: int, range_bits: int, v: u16)
    requires
        pixels.len() > 0,
        forall|k: int| 0 <= k < pixels.len() ==> #[trigger] pixels[k] == v,
    ensures
        encoded_block(pixels, chunk_size, range_bits) == seq![
            0u8,
            1u8,
            (v % 256) as u8,
            (v / 256) as u8,
        ],
{
    let values = seq![v];
    assert forall|x: u16| #[trigger] values.contains(x) <==> pixels.contains(x) by {
        if x == v {
            assert(values[0] == x);
            assert(pixels[0] == x);
        }
    }
    lemma_palette_is(pixels, values);
    assert(encoded_block(pixels, chunk_size, range_bits) =~= seq![
        0u8,
        1u8,
        (v % 256) as u8,
        (v / 256) as u8,
    ]);
}

/// A chunk of no pixels is stored as an empty bitmap of one bit, without a list.
pub proof fn law_block_of_nothing(chunk_size: int, range_bits: int)
    requires
        chunk_size >= 0,
    ensures
        encoded_block(Seq::empty(), chunk_size, range_bits) == seq![1u8, 0u8] + Seq::new(
            128,
            |i: int| 0u8,
        ),
{
    let none = Seq::<u16>::empty();
    assert forall|x: u16| #[trigger] none.contains(x) <==> none.contains(x) by {}
    lemma_palette_is(none, none);
    assert(0 <= chunk_size * chunk_size) by (nonlinear_arith);
    assert(shown_pixels(none, chunk_size) == none);
    let codes = palette_codes(none, none);
    assert(codes =~= none);
    assert forall|i: int, j: int| #[trigger] packed_bit(codes, 1, 8 * i + j) == false by {}
    assert(packed_bitmap(codes, 1) =~= Seq::new(128, |i: int| 0u8));
    assert(palette_bytes(none) =~= Seq::<u8>::empty());
    assert(encoded_block(none, chunk_size, range_bits) =~= seq![1u8, 0u8] + Seq::new(
        128,
        |i: int| 0u8,
    ));
}

/// A chunk of up to four values is stored as the list of these values, in increasing order, and for
/// each pixel the place of its value in the list, in one bit for two values and in two for more.
/// Only as many pixels as the chunk has are stored.
pub proof fn law_block_of_few_values(
    pixels: Seq<u16>,
    values: Seq<u16>,
    chunk_size: int,
    range_bits: int,
    shown: int,
)
    requires
        2 <= values.len() <= 4,
        forall|i: int, j: int| 0 <= i < j < values.len() ==> values[i] < values[j],
        forall|v: u16| #[trigger] values.contains(v) <==> pixels.contains(v),
        shown <= chunk_size * chunk_size,
        shown <= pixels.len(),
        shown == chunk_size * chunk_size || shown == pixels.len(),
        0 <= shown <= 1024,
    ensures
        ({
            let block = encoded_block(pixels, chunk_size, range_bits);
            let depth = if values.len() == 2 {
                1int
            } else {
                2int
            };
            let bitmap = 2 + 2 * values.len();
            &&& block.len() == bitmap + 128 * depth
            &&& block[0] == depth
            &&& block[1] == values.len()
            &&& forall|i: int|
                0 <= i < values.len() ==> block[2 + 2 * i] + 256 * block[3 + 2 * i]
                    == #[trigger] values[i]
            &&& forall|k: int, i: int|
                0 <= k < shown && 0 <= i < values.len() && #[trigger] pixels[k]
                    == #[trigger] values[i] ==> (block[bitmap + k * depth / 8] as int / pow2(
                    (k * depth % 8) as nat,
                ) as int) % pow2(depth as nat) as int == i
            &&& forall|b: int|
                depth * shown <= b < 1024 * depth ==> (#[trigger] block[bitmap + b / 8] as int
                    / pow2((b % 8) as nat) as int) % 2 == 0
        }),
{
    let block = encoded_block(pixels, chunk_size, range_bits);
    let depth = if values.len() == 2 {
        1int
    } else {
        2int
    };
    let bitmap = 2 + 2 * values.len();
    lemma_palette_is(pixels, values);
    lemma_palette_bytes(values, 0);
    lemma2_to64();
    let part = pixels.take(shown);
    assert(shown_pixels(pixels, chunk_size) =~= part);
    let codes = palette_codes(part, values);
    assert forall|k: int| 0 <= k < codes.len() implies #[trigger] codes[k] < pow2(depth as nat)
        && values[codes[k] as int] == pixels[k] && codes[k] < values.len() by {
        assert(pixels.contains(pixels[k]));
        assert(values.contains(pixels[k]));
    }
    assert(packed_bitmap(codes, depth).len() == 128 * depth);
    assert forall|i: int| 0 <= i < values.len() implies block[2 + 2 * i] + 256 * block[3 + 2 * i]
        == #[trigger] values[i] by {
        lemma_palette_bytes(values, i);
    }
    assert forall|i: int| 0 <= i < 128 * depth implies #[trigger] block[bitmap + i] == packed_bitmap(
        codes,
        depth,
    )[i] by {}
    assert forall|k: int, i: int|
        0 <= k < shown && 0 <= i < values.len() && #[trigger] pixels[k]
            == #[trigger] values[i] implies (block[bitmap + k * depth / 8] as int / pow2(
        (k * depth % 8) as nat,
    ) as int) % pow2(depth as nat) as int == i by {
        assert(codes[k] == i);
        lemma_few_bits(codes, depth, k);
        assert(block[bitmap + k * depth / 8] == packed_bitmap(codes, depth)[k * depth / 8]);
    }
    assert forall|b: int| depth * shown <= b < 1024 * depth implies (#[trigger] block[bitmap
        + b / 8] as int / pow2((b % 8) as nat) as int) % 2 == 0 by {
        lemma_bitmap_digit(codes, depth, b);
        assert(block[bitmap + b / 8] == packed_bitmap(codes, depth)[b / 8]);
        assert(b / depth >= codes.len());
    }
}

/// A field of one bit or two is within a byte.
proof fn lemma_few_bits(codes: Seq<u16>, depth: int, k: int)
    requires
        depth == 1 || depth == 2,
        codes.len() <= 1024,
        0 <= k < codes.len(),
        forall|i: int| 0 <= i < codes.len() ==> #[trigger] codes[i] < pow2(depth as nat),
    ensures
        0 <= k * depth / 8 < 128 * depth,
        (packed_bitmap(codes, depth)[k * depth / 8] as int / pow2((k * depth % 8) as nat) as int)
            % pow2(depth as nat) as int == codes[k],
{
    lemma2_to64();
    let b = k * depth;
    let byte = packed_bitmap(codes, depth)[b / 8] as int;
    lemma_bitmap_digit(codes, depth, b);
    assert(b / depth == k && b % depth == 0);
    if depth == 2 {
        lemma_bitmap_digit(codes, depth, b + 1);
        assert((b + 1) / 2 == k && (b + 1) % 2 == 1);
        assert((b + 1) / 8 == b / 8 && (b + 1) % 8 == b % 8 + 1);
        let d = pow2((b % 8) as nat) as int;
        lemma_pow2_unfold((b % 8 + 1) as nat);
        lemma_pow2_pos((b % 8) as nat);
        vstd::arithmetic::div_mod::lemma_div_denominator(byte, d, 2);
        assert(d * 2 == pow2((b % 8 + 1) as nat));
        let q = byte / d;
        let c = codes[k] as int;
        assert(q % 2 == c / 1 % 2);
        assert(q / 2 % 2 == c / 2 % 2);
        assert(c < 4);
        assert(q % 4 == q % 2 + 2 * (q / 2 % 2));
    } else {
        assert(codes[k] as int / 1 == codes[k]);
        assert(codes[k] < 2);
    }
}

/// A number from `2^(n - 1)` on needs at least `n` bits.
pub proof fn lemma_bit_width_at_least(v: nat, n: nat)
    requires
        n > 0,
        v >= pow2((n - 1) as nat),
    ensures
        bit_width(v) >= n,
    decreases n,
{
    lemma_pow2_pos((n - 1) as nat);
    if n > 1 {
        lemma_pow2_unfold((n - 1) as nat);
        lemma_bit_width_at_least(v / 2, (n - 1) as nat);
    }
}

proof fn lemma_five_values(pixels: Seq<u16>, five: Seq<int>)
    requires
        five.len() == 5,
        forall|i: int| 0 <= i < 5 ==> 0 <= #[trigger] five[i] < pixels.len(),
        forall|i: int, j: int| 0 <= i < j < 5 ==> pixels[five[i]] != pixels[five[j]],
    ensures
        palette_of(pixels).len() > 4,
{
    let values = palette_of(pixels);
    lemma_palette(pixels);
    let places = Seq::new(5, |i: int| values.index_of(pixels[five[i]]));
    assert forall|i: int| 0 <= i < 5 implies 0 <= #[trigger] places[i] < values.len()
        && values[places[i]] == pixels[five[i]] by {
        assert(pixels.contains(pixels[five[i]]));
        assert(values.contains(pixels[five[i]]));
    }
    assert forall|i: int, j: int| 0 <= i < j < 5 implies #[trigger] places[i] != #[trigger] places[j] by {
        assert(pixels[five[i]] != pixels[five[j]]);
    }
    assert(places[0] != places[1] && places[0] != places[2] && places[0] != places[3] && places[0]
        != places[4] && places[1] != places[2] && places[1] != places[3] && places[1] != places[4]
        && places[2] != places[3] && places[2] != places[4] && places[3] != places[4]);
}

proof fn lemma_depth(pixels: Seq<u16>, range_bits: int, depth: int)
    requires
        palette_of(pixels).len() > 0,
        range_bits <= depth < 256,
        0 < depth,
        forall|k: int| 0 <= k < pixels.len() ==> #[trigger] pixels[k] < pow2(depth as nat),
        depth == range_bits || exists|k: int|
            0 <= k < pixels.len() && #[trigger] pixels[k] >= pow2((depth - 1) as nat),
    ensures
        raw_depth(pixels, range_bits) == depth,
{
    let values = palette_of(pixels);
    lemma_palette(pixels);
    let largest = values.last();
    assert(values.contains(largest));
    assert(pixels.contains(largest));
    lemma_bit_width_at_most(largest as nat, depth as nat);
    if depth != range_bits {
        let k = choose|k: int|
            0 <= k < pixels.len() && #[trigger] pixels[k] >= pow2((depth - 1) as nat);
        assert(pixels.contains(pixels[k]));
        assert(values.contains(pixels[k]));
        let i = values.index_of(pixels[k]);
        assert(values[i] <= largest);
        lemma_bit_width_at_least(largest as nat, depth as nat);
    }
}

proof fn lemma_raw_block(pixels: Seq<u16>, chunk_size: int, range_bits: int, shown: int)
    requires
        palette_of(pixels).len() > 4,
        0 <= shown <= chunk_size * chunk_size,
        shown <= pixels.len(),
        shown == chunk_size * chunk_size || shown == pixels.len(),
    ensures
        encoded_block(pixels, chunk_size, range_bits) == seq![
            raw_depth(pixels, range_bits) as u8,
            0u8,
        ] + packed_bitmap(pixels.take(shown), raw_depth(pixels, range_bits)),
{
    assert(shown_pixels(pixels, chunk_size) =~= pixels.take(shown));
}

/// A chunk of five values or more is stored without a list: each pixel in as many bits as the range
/// has, or as the largest value needs where the range is too narrow. Bit `b` of what follows the
/// first two bytes belongs to pixel `b / depth`. The bits of a pixel that lie beyond the two bytes
/// in which it starts are dropped.
pub proof fn law_block_of_many_values(
    pixels: Seq<u16>,
    five: Seq<int>,
    chunk_size: int,
    range_bits: int,
    depth: int,
    shown: int,
    b: int,
)
    requires
        five.len() == 5,
        forall|i: int| 0 <= i < 5 ==> 0 <= #[trigger] five[i] < pixels.len(),
        forall|i: int, j: int| 0 <= i < j < 5 ==> pixels[five[i]] != pixels[five[j]],
        shown <= chunk_size * chunk_size,
        shown <= pixels.len(),
        shown == chunk_size * chunk_size || shown == pixels.len(),
        0 <= shown <= 1024,
        range_bits <= depth < 256,
        0 < depth,
        forall|k: int| 0 <= k < pixels.len() ==> #[trigger] pixels[k] < pow2(depth as nat),
        depth == range_bits || exists|k: int|
            0 <= k < pixels.len() && #[trigger] pixels[k] >= pow2((depth - 1) as nat),
        0 <= b < 1024 * depth,
    ensures
        ({
            let block = encoded_block(pixels, chunk_size, range_bits);
            &&& block.len() == 2 + 128 * depth
            &&& block[0] == depth
            &&& block[1] == 0
            &&& (block[2 + b / 8] as int / pow2((b % 8) as nat) as int) % 2 == (if b / depth
                < shown && (b / depth * depth) % 8 + b % depth < 16 {
                (pixels[b / depth] as int / pow2((b % depth) as nat) as int) % 2
            } else {
                0
            })
        }),
{
    lemma_five_values(pixels, five);
    lemma_depth(pixels, range_bits, depth);
    lemma_raw_block(pixels, chunk_size, range_bits, shown);
    lemma_bitmap_digit(pixels.take(shown), depth, b);
    let block = encoded_block(pixels, chunk_size, range_bits);
    assert(block[2 + b / 8] == packed_bitmap(pixels.take(shown), depth)[b / 8]);
}

} // verus!
