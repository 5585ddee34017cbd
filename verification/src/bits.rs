//! Single bits of machine integers.

use vstd::arithmetic::power2::*;
use vstd::prelude::*;

verus! {

/// Bit `i` of `x`, counted from the least significant.
pub open spec fn has_bit(x: u16, i: int) -> bool {
    0 <= i < 16 && (x >> (i as u16)) & 1 == 1
}

/// `weight` where the bit is set, 0 where it is not.
pub open spec fn weighted(bit: bool, weight: int) -> int {
    if bit {
        weight
    } else {
        0
    }
}

/// The bits of a union are those of either side.
pub proof fn lemma_or_bit(x: u8, y: u8, j: int)
    requires
        0 <= j < 8,
    ensures
        has_bit((x | y) as u16, j) <==> has_bit(x as u16, j) || has_bit(y as u16, j),
{
    let s: u16 = j as u16;
    assert((((x | y) as u16) >> s) & 1 == 1u16 <==> ((x as u16) >> s) & 1 == 1u16 || ((y as u16)
        >> s) & 1 == 1u16) by (bit_vector);
}

/// The low byte of `v` shifted left by `off` holds the low bits of `v` from bit `off` on.
pub proof fn lemma_low_part_bit(v: u16, off: int, j: int)
    requires
        0 <= off < 8,
        0 <= j < 8,
    ensures
        has_bit(((v << (off as u16)) as u8) as u16, j) <==> has_bit(v, j - off),
{
    let o: u16 = off as u16;
    let s: u16 = j as u16;
    if j < off {
        assert(((((v << o) as u8) as u16) >> s) & 1 == 0u16) by (bit_vector)
            requires
                s < o < 8,
        ;
    } else {
        let d: u16 = (j - off) as u16;
        assert(((((v << o) as u8) as u16) >> s) & 1 == (v >> d) & 1) by (bit_vector)
            requires
                o <= s < 8,
                d == s - o,
        ;
    }
}

/// The byte of `v` that spills over from a shift left by `off`.
pub proof fn lemma_high_part_bit(v: u16, off: int, j: int)
    requires
        0 <= off < 8,
        0 <= j < 8,
    ensures
        has_bit(((v >> ((8 - off) as u16)) as u8) as u16, j) <==> has_bit(v, j + 8 - off),
{
    let o: u16 = (8 - off) as u16;
    let s: u16 = j as u16;
    let d: u16 = (j + 8 - off) as u16;
    assert(((((v >> o) as u8) as u16) >> s) & 1 == (v >> d) & 1) by (bit_vector)
        requires
            1 <= o <= 8,
            s < 8,
            d == s + o,
    ;
}

/// A byte is the sum of the weights of its bits.
pub proof fn lemma_byte_is_sum_of_bits(b: u8)
    ensures
        b == weighted(has_bit(b as u16, 0), 1) + weighted(has_bit(b as u16, 1), 2) + weighted(
            has_bit(b as u16, 2),
            4,
        ) + weighted(has_bit(b as u16, 3), 8) + weighted(has_bit(b as u16, 4), 16) + weighted(
            has_bit(b as u16, 5),
            32,
        ) + weighted(has_bit(b as u16, 6), 64) + weighted(has_bit(b as u16, 7), 128),
{
    let x: u16 = b as u16;
    assert(x < 256 ==> x == ((x >> 0u16) & 1) + 2 * ((x >> 1u16) & 1) + 4 * ((x >> 2u16) & 1) + 8
        * ((x >> 3u16) & 1) + 16 * ((x >> 4u16) & 1) + 32 * ((x >> 5u16) & 1) + 64 * ((x >> 6u16)
        & 1) + 128 * ((x >> 7u16) & 1)) by (bit_vector);
    assert(forall|s: u16| #[trigger] ((x >> s) & 1) == 0 || (x >> s) & 1 == 1) by {
        assert forall|s: u16| #[trigger] ((x >> s) & 1) == 0 || (x >> s) & 1 == 1 by {
            let y: u16 = x >> s;
            assert(y & 1 == 0 || y & 1 == 1) by (bit_vector);
        }
    }
}

/// Two integers with the same bits are equal.
pub proof fn lemma_same_bits(x: u16, y: u16)
    requires
        forall|i: int| 0 <= i < 16 ==> (has_bit(x, i) <==> has_bit(y, i)),
    ensures
        x == y,
{
    assert forall|z: u16, s: u16| #[trigger] ((z >> s) & 1) == 0 || (z >> s) & 1 == 1 by {
        let w: u16 = z >> s;
        assert(w & 1 == 0 || w & 1 == 1) by (bit_vector);
    }
    assert(has_bit(x, 0) <==> has_bit(y, 0));
    assert(has_bit(x, 1) <==> has_bit(y, 1));
    assert(has_bit(x, 2) <==> has_bit(y, 2));
    assert(has_bit(x, 3) <==> has_bit(y, 3));
    assert(has_bit(x, 4) <==> has_bit(y, 4));
    assert(has_bit(x, 5) <==> has_bit(y, 5));
    assert(has_bit(x, 6) <==> has_bit(y, 6));
    assert(has_bit(x, 7) <==> has_bit(y, 7));
    assert(has_bit(x, 8) <==> has_bit(y, 8));
    assert(has_bit(x, 9) <==> has_bit(y, 9));
    assert(has_bit(x, 10) <==> has_bit(y, 10));
    assert(has_bit(x, 11) <==> has_bit(y, 11));
    assert(has_bit(x, 12) <==> has_bit(y, 12));
    assert(has_bit(x, 13) <==> has_bit(y, 13));
    assert(has_bit(x, 14) <==> has_bit(y, 14));
    assert(has_bit(x, 15) <==> has_bit(y, 15));
    assert(x == y) by (bit_vector)
        requires
            (x >> 0u16) & 1 == (y >> 0u16) & 1,
            (x >> 1u16) & 1 == (y >> 1u16) & 1,
            (x >> 2u16) & 1 == (y >> 2u16) & 1,
            (x >> 3u16) & 1 == (y >> 3u16) & 1,
            (x >> 4u16) & 1 == (y >> 4u16) & 1,
            (x >> 5u16) & 1 == (y >> 5u16) & 1,
            (x >> 6u16) & 1 == (y >> 6u16) & 1,
            (x >> 7u16) & 1 == (y >> 7u16) & 1,
            (x >> 8u16) & 1 == (y >> 8u16) & 1,
            (x >> 9u16) & 1 == (y >> 9u16) & 1,
            (x >> 10u16) & 1 == (y >> 10u16) & 1,
            (x >> 11u16) & 1 == (y >> 11u16) & 1,
            (x >> 12u16) & 1 == (y >> 12u16) & 1,
            (x >> 13u16) & 1 == (y >> 13u16) & 1,
            (x >> 14u16) & 1 == (y >> 14u16) & 1,
            (x >> 15u16) & 1 == (y >> 15u16) & 1,
    ;
}

/// An integer below `2^n` has no bit from `n` on.
pub proof fn lemma_small_has_no_high_bit(x: u16, n: nat, i: int)
    requires
        x < pow2(n),
        n <= i < 16,
    ensures
        !has_bit(x, i),
{
    let s: u16 = i as u16;
    vstd::bits::lemma_u16_shr_is_div(x, s);
    lemma_pow2_pos(n);
    if n < i {
        lemma_pow2_strictly_increases(n, i as nat);
    }
    assert((x as nat) / pow2(i as nat) == 0) by (nonlinear_arith)
        requires
            (x as nat) < pow2(i as nat),
    ;
    assert((0u16) & 1 == 0) by (bit_vector);
}

/// Shifting and masking read a field of `depth` bits at bit `off`.
pub proof fn lemma_shift_and_mask(raw: u16, off: u16, depth: u16)
    requires
        off < 16,
        0 < depth < 16,
    ensures
        1 <= 1u16 << depth,
        (raw >> off) & ((1u16 << depth) - 1) as u16 == (raw as int / pow2(off as nat) as int)
            % pow2(depth as nat) as int,
{
    vstd::bits::lemma_u16_pow2_no_overflow(depth as nat);
    vstd::bits::lemma_u16_shl_is_mul(1u16, depth);
    vstd::bits::lemma_u16_shr_is_div(raw, off);
    vstd::bits::lemma_u16_low_bits_mask_is_mod(raw >> off, depth as nat);
}

/// The bits of a field of `depth` bits that starts at bit `off`.
pub proof fn lemma_field_bit(raw: u16, off: u16, depth: u16, p: int)
    requires
        off < 8,
        0 < depth < 16,
        0 <= p < 16,
    ensures
        has_bit(((raw >> off) & ((1u16 << depth) - 1) as u16), p) <==> p < depth && has_bit(
            raw,
            off + p,
        ),
{
    let s: u16 = p as u16;
    let q: u16 = (off + p) as u16;
    lemma_shift_and_mask(raw, off, depth);
    let mask: u16 = ((1u16 << depth) - 1) as u16;
    assert((((raw >> off) & mask) >> s) & 1 == (if s < depth && q < 16 {
        (raw >> q) & 1
    } else {
        0u16
    })) by (bit_vector)
        requires
            off < 8,
            0 < depth < 16,
            s < 16,
            q == off + s,
            mask + 1 == 1u16 << depth,
    ;
}

/// The bits of two bytes side by side.
pub proof fn lemma_pair_bit(low: u8, high: u8, q: int)
    requires
        0 <= q < 16,
    ensures
        has_bit((low + 256 * high) as u16, q) <==> (if q < 8 {
            has_bit(low as u16, q)
        } else {
            has_bit(high as u16, q - 8)
        }),
{
    let l: u16 = low as u16;
    let h: u16 = high as u16;
    let s: u16 = q as u16;
    let raw: u16 = (low + 256 * high) as u16;
    if q < 8 {
        assert((raw >> s) & 1 == (l >> s) & 1) by (bit_vector)
            requires
                l < 256,
                h < 256,
                s < 8,
                raw == l + 256 * h,
        ;
    } else {
        let t: u16 = (q - 8) as u16;
        assert((raw >> s) & 1 == (h >> t) & 1) by (bit_vector)
            requires
                l < 256,
                h < 256,
                8 <= s < 16,
                t == s - 8,
                raw == l + 256 * h,
        ;
    }
}

/// The bits of a remainder by `2^n` are the low `n` bits.
pub proof fn lemma_mod_bit(x: u16, n: int, p: int)
    requires
        0 < n <= 16,
        0 <= p < 16,
    ensures
        has_bit((x as int % pow2(n as nat) as int) as u16, p) <==> has_bit(x, p) && p < n,
{
    lemma2_to64();
    if n < 16 {
        assert(x >> 0u16 == x) by (bit_vector);
        lemma_shift_and_mask(x, 0, n as u16);
        lemma_field_bit(x, 0, n as u16, p);
        assert(pow2(0) == 1);
        assert(x as int / 1 == x);
        assert(x & ((1u16 << (n as u16)) - 1) as u16 == x as int % pow2(n as nat) as int);
    } else {
        assert(pow2(16) == 65536);
        assert((x as int % 65536) as u16 == x);
    }
}

/// A bit of a number is a digit of it.
pub proof fn lemma_bit_is_digit(x: u16, i: int)
    requires
        0 <= i < 16,
    ensures
        has_bit(x, i) <==> (x as int / pow2(i as nat) as int) % 2 == 1,
        has_bit(x, i) || (x as int / pow2(i as nat) as int) % 2 == 0,
{
    let s: u16 = i as u16;
    vstd::bits::lemma_u16_shr_is_div(x, s);
    let y: u16 = x >> s;
    assert(y & 1 == y % 2) by (bit_vector);
}

} // verus!
