//! What expanding a stream gives back of what was compressed.

use crate::rle::{
    count_bytes, count_len, count_value, decoded_rle, encoded_rle, encoded_stream, full_bytes,
    leading_run, lemma_leading_run, repeated, run_bytes, stream_of, stream_pixels,
};
use vstd::prelude::*;

verus! {

/// Whether the last of several pixels differs from the one before it.
pub open spec fn ends_alone(pixels: Seq<u8>) -> bool {
    pixels.len() > 1 && pixels[pixels.len() - 1] != pixels[pixels.len() - 2]
}

proof fn lemma_count_read_back(count: nat, suffix: Seq<u8>)
    ensures
        count_value(count_bytes(count) + suffix) == count,
        count_len(count_bytes(count) + suffix) == count_bytes(count).len(),
        full_bytes(count_bytes(count) + suffix) + 1 == count_bytes(count).len(),
    decreases count,
{
    let s = count_bytes(count) + suffix;
    if count >= 255 {
        let less = (count - 255) as nat;
        lemma_count_read_back(less, suffix);
        assert(s.skip(1) =~= count_bytes(less) + suffix);
        assert(s[0] == 255);
        let n = full_bytes(s.skip(1));
        assert(full_bytes(s) == 1 + n);
        assert(s[n as int + 1] == s.skip(1)[n as int]);
    } else {
        assert(s[0] == count);
    }
}

/// Expanding the stream of some pixels gives these pixels, but for a last one that stands alone.
proof fn lemma_stream_read_back(pixels: Seq<u8>)
    ensures
        stream_pixels(encoded_stream(pixels)) == (if pixels.len() == 1 || ends_alone(pixels) {
            pixels.drop_last()
        } else {
            pixels
        }),
    decreases pixels.len(),
{
    let stream = encoded_stream(pixels);
    if pixels.len() == 0 {
        assert(stream_pixels(stream) =~= pixels);
    } else {
        lemma_leading_run(pixels);
        let v = pixels[0];
        let n = leading_run(pixels);
        let rest = pixels.skip(n as int);
        let after = encoded_stream(rest);
        lemma_stream_read_back(rest);
        assert(stream == run_bytes(v, n) + after);
        assert(pixels =~= repeated(v, n) + rest);
        if rest.len() > 0 {
            lemma_leading_run(rest);
            assert(after[0] == rest[0]);
            assert(rest[0] == pixels[n as int]);
        }
        if n >= 2 {
            let tail = stream.skip(2);
            assert(tail =~= count_bytes((n - 2) as nat) + after);
            lemma_count_read_back((n - 2) as nat, after);
            assert(tail.skip(count_len(tail) as int) =~= after);
            assert(stream_pixels(stream) == repeated(v, n) + stream_pixels(after));
        } else {
            assert(stream =~= seq![v] + after);
            if rest.len() > 0 {
                assert(stream.skip(1) =~= after);
                assert(stream_pixels(stream) == seq![v] + stream_pixels(after));
                assert(seq![v] =~= repeated(v, n));
            }
        }
        if rest.len() == 0 {
            assert(stream_pixels(after) =~= Seq::<u8>::empty());
            if n >= 2 {
                assert(pixels[n - 1] == v && pixels[n - 2] == v);
            }
        } else if rest.len() == 1 {
            assert(pixels[pixels.len() - 2] == v);
            assert(ends_alone(pixels));
        } else {
            assert(ends_alone(pixels) == ends_alone(rest)) by {
                assert(pixels[pixels.len() - 1] == rest[rest.len() - 1]);
                assert(pixels[pixels.len() - 2] == rest[rest.len() - 2]);
            }
        }
        assert(stream_pixels(stream) =~= (if pixels.len() == 1 || ends_alone(pixels) {
            pixels.drop_last()
        } else {
            pixels
        }));
    }
}

/// Expanding compressed pixels gives them back, except that a last pixel that differs from the one
/// before it comes back as zero.
pub proof fn law_rle_read_back(pixels: Seq<u8>)
    ensures
        decoded_rle(encoded_rle(pixels), pixels.len()) == (if ends_alone(pixels) {
            pixels.update(pixels.len() - 1, 0u8)
        } else {
            pixels
        }),
{
    let data = encoded_rle(pixels);
    let stream = stream_of(data);
    if pixels.len() == 1 {
        let v = pixels[0];
        assert(stream =~= seq![v, v] + count_bytes(0) + Seq::<u8>::empty());
        lemma_count_read_back(0, Seq::empty());
        assert(stream.skip(2) =~= count_bytes(0) + Seq::<u8>::empty());
        assert(stream_pixels(stream).len() >= 1 && stream_pixels(stream)[0] == v);
        assert(decoded_rle(data, pixels.len()) =~= pixels);
    } else {
        assert(stream =~= encoded_stream(pixels));
        lemma_stream_read_back(pixels);
        if ends_alone(pixels) {
            assert(decoded_rle(data, pixels.len()) =~= pixels.update(pixels.len() - 1, 0u8));
        } else {
            assert(decoded_rle(data, pixels.len()) =~= pixels);
        }
    }
}

/// Compression loses nothing unless the last pixel differs from the one before it and is not zero.
pub proof fn law_rle_round_trip(pixels: Seq<u8>)
    requires
        ends_alone(pixels) ==> pixels.last() == 0,
    ensures
        decoded_rle(encoded_rle(pixels), pixels.len()) == pixels,
{
    law_rle_read_back(pixels);
    assert(ends_alone(pixels) ==> pixels.update(pixels.len() - 1, 0u8) =~= pixels);
}

proof fn lemma_full_bytes(full: nat, rest: Seq<u8>)
    requires
        rest.len() > 0 ==> rest[0] != 255,
    ensures
        full_bytes(Seq::new(full, |i: int| 255u8) + rest) == full,
    decreases full,
{
    let s = Seq::new(full, |i: int| 255u8) + rest;
    if full > 0 {
        lemma_full_bytes((full - 1) as nat, rest);
        assert(s.skip(1) =~= Seq::new((full - 1) as nat, |i: int| 255u8) + rest);
    } else {
        assert(s =~= rest);
    }
}

/// A value that stands twice begins a run. The bytes 255 behind it and the byte after them are its
/// count, and the run is longer than the count by two. What follows is read on its own.
pub proof fn law_rle_expands_run(flag: u8, v: u8, full: nat, last: u8, rest: Seq<u8>, size: nat)
    requires
        last != 255,
    ensures
        decoded_rle(
            seq![flag, v, v] + Seq::new(full, |i: int| 255u8) + seq![last] + rest,
            size,
        ) == Seq::new(
            size,
            |i: int|
                if i < 255 * full + last + 2 {
                    v
                } else {
                    decoded_rle(seq![flag] + rest, size)[i - (255 * full + last + 2)]
                },
        ),
{
    let fulls = Seq::new(full, |i: int| 255u8);
    let data = seq![flag, v, v] + fulls + seq![last] + rest;
    let s = stream_of(data);
    let tail = s.skip(2);
    let n = (255 * full + last + 2) as nat;
    assert(s =~= seq![v, v] + fulls + seq![last] + rest);
    assert(tail =~= fulls + (seq![last] + rest));
    lemma_full_bytes(full, seq![last] + rest);
    assert(tail[full as int] == last);
    assert(tail.skip(count_len(tail) as int) =~= rest);
    assert(stream_of(seq![flag] + rest) =~= rest);
    assert(stream_pixels(s) == repeated(v, n) + stream_pixels(rest));
    let expected = Seq::new(
        size,
        |i: int|
            if i < 255 * full + last + 2 {
                v
            } else {
                decoded_rle(seq![flag] + rest, size)[i - (255 * full + last + 2)]
            },
    );
    assert forall|i: int| 0 <= i < size implies decoded_rle(data, size)[i] == expected[i] by {
        if i >= n && i - n < stream_pixels(rest).len() {
            assert(stream_pixels(s)[i] == stream_pixels(rest)[i - n]);
        }
    }
    assert(decoded_rle(data, size) =~= expected);
}

/// A run whose count the data cuts off is as long as what is there of the count says, and zeros
/// follow it.
pub proof fn law_rle_expands_cut_run(flag: u8, v: u8, full: nat, size: nat)
    ensures
        decoded_rle(seq![flag, v, v] + Seq::new(full, |i: int| 255u8), size) == Seq::new(
            size,
            |i: int|
                if i < 255 * full + 2 {
                    v
                } else {
                    0u8
                },
        ),
{
    let fulls = Seq::new(full, |i: int| 255u8);
    let data = seq![flag, v, v] + fulls;
    let s = stream_of(data);
    let tail = s.skip(2);
    assert(s =~= seq![v, v] + fulls);
    assert(tail =~= fulls + Seq::<u8>::empty());
    lemma_full_bytes(full, Seq::empty());
    assert(tail.skip(count_len(tail) as int) =~= Seq::<u8>::empty());
    assert(stream_pixels(Seq::<u8>::empty()) =~= Seq::<u8>::empty());
    assert(stream_pixels(s) =~= repeated(v, (255 * full + 2) as nat));
    assert(decoded_rle(data, size) =~= Seq::new(
        size,
        |i: int|
            if i < 255 * full + 2 {
                v
            } else {
                0u8
            },
    ));
}

/// A value before another one is a single pixel, and the other is read on from there.
pub proof fn law_rle_expands_single(flag: u8, a: u8, b: u8, rest: Seq<u8>, size: nat)
    requires
        a != b,
    ensures
        decoded_rle(seq![flag, a, b] + rest, size) == Seq::new(
            size,
            |i: int|
                if i == 0 {
                    a
                } else {
                    decoded_rle(seq![flag, b] + rest, size)[i - 1]
                },
        ),
{
    let data = seq![flag, a, b] + rest;
    let s = stream_of(data);
    let next = seq![b] + rest;
    assert(s =~= seq![a, b] + rest);
    assert(s.skip(1) =~= next);
    assert(stream_of(seq![flag, b] + rest) =~= next);
    assert(stream_pixels(s) == seq![a] + stream_pixels(next));
    assert(decoded_rle(data, size) =~= Seq::new(
        size,
        |i: int|
            if i == 0 {
                a
            } else {
                decoded_rle(seq![flag, b] + rest, size)[i - 1]
            },
    ));
}

/// Data without a pair of bytes behind the first one gives zeros.
pub proof fn law_rle_expands_nothing(data: Seq<u8>, size: nat)
    requires
        data.len() <= 2,
    ensures
        decoded_rle(data, size) == Seq::new(size, |i: int| 0u8),
{
    assert(decoded_rle(data, size) =~= Seq::new(size, |i: int| 0u8));
}

proof fn lemma_count_bytes(count: nat)
    ensures
        count_bytes(count) == Seq::new(count / 255, |i: int| 255u8).push((count % 255) as u8),
    decreases count,
{
    if count >= 255 {
        let less = (count - 255) as nat;
        lemma_count_bytes(less);
        assert(less / 255 == count / 255 - 1 && less % 255 == count % 255);
    }
    assert(count_bytes(count) =~= Seq::new(count / 255, |i: int| 255u8).push((count % 255) as u8));
}

proof fn lemma_run_length(v: u8, n: nat, rest: Seq<u8>)
    requires
        n >= 1,
        rest.len() > 0 ==> rest[0] != v,
    ensures
        leading_run(Seq::new(n, |i: int| v) + rest) == n,
{
    let pixels = Seq::new(n, |i: int| v) + rest;
    lemma_leading_run(pixels);
    let m = leading_run(pixels);
    if m < n {
        assert(pixels[m as int] == v);
    } else if m > n {
        assert(pixels[n as int] == rest[0]);
    }
}

/// What compression gives. A run of several pixels is its value, twice, and its length less two:
/// a byte 255 for each 255 of it, and a byte for what is left. A single pixel is its value. A zero
/// stands before the first run, and an image of one pixel is stored as a run.
pub proof fn law_rle_compresses_run(v: u8, n: nat, rest: Seq<u8>)
    requires
        n >= 1,
        n + rest.len() >= 2,
        rest.len() > 0 ==> rest[0] != v,
    ensures
        encoded_rle(Seq::empty()) == seq![0u8],
        encoded_rle(seq![v]) == seq![0u8, v, v, 0u8],
        encoded_rle(Seq::new(n, |i: int| v) + rest) == seq![0u8] + (if n >= 2 {
            seq![v, v] + Seq::new(((n - 2) / 255) as nat, |i: int| 255u8) + seq![
                ((n - 2) % 255) as u8,
            ]
        } else {
            seq![v]
        }) + (if rest.len() == 1 {
            rest
        } else {
            encoded_rle(rest).skip(1)
        }),
{
    let pixels = Seq::new(n, |i: int| v) + rest;
    assert(encoded_rle(Seq::empty()) =~= seq![0u8]);
    lemma_run_length(v, n, rest);
    assert(pixels.skip(n as int) =~= rest);
    assert(pixels[0] == v);
    if n >= 2 {
        lemma_count_bytes((n - 2) as nat);
    }
    if rest.len() == 1 {
        assert(rest =~= Seq::new(1, |i: int| rest[0]) + Seq::<u8>::empty());
        lemma_run_length(rest[0], 1, Seq::empty());
        assert(rest.skip(1) =~= Seq::<u8>::empty());
        assert(encoded_stream(rest) =~= rest);
    } else {
        assert(encoded_rle(rest).skip(1) =~= encoded_stream(rest));
    }
    assert(encoded_rle(pixels) =~= seq![0u8] + (if n >= 2 {
        seq![v, v] + Seq::new(((n - 2) / 255) as nat, |i: int| 255u8) + seq![((n - 2) % 255) as u8]
    } else {
        seq![v]
    }) + (if rest.len() == 1 {
        rest
    } else {
        encoded_rle(rest).skip(1)
    }));
}

} // verus!
