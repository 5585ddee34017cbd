//! Run-length compression of the GRLE format.

use vstd::prelude::*;

verus! {

/// `n` copies of `v`.
pub open spec fn repeated(v: u8, n: nat) -> Seq<u8> {
    Seq::new(n, |i: int| v)
}

/// The number of bytes 255 that `s` starts with.
pub open spec fn full_bytes(s: Seq<u8>) -> nat
    decreases s.len(),
{
    if s.len() > 0 && s[0] == 255 {
        1 + full_bytes(s.skip(1))
    } else {
        0
    }
}

/// The count that `s` starts with: 255 for each leading byte 255, and the byte after them.
pub open spec fn count_value(s: Seq<u8>) -> nat {
    let n = full_bytes(s);
    255 * n + (if n < s.len() {
        s[n as int] as nat
    } else {
        0
    })
}

/// The number of bytes of the count that `s` starts with.
pub open spec fn count_len(s: Seq<u8>) -> nat {
    let n = full_bytes(s);
    if n < s.len() {
        n + 1
    } else {
        n
    }
}

/// A count lies within the bytes that it is read from.
pub proof fn lemma_count_len(s: Seq<u8>)
    ensures
        full_bytes(s) <= s.len(),
        count_len(s) <= s.len(),
    decreases s.len(),
{
    if s.len() > 0 && s[0] == 255 {
        lemma_count_len(s.skip(1));
    }
}

/// The pixels that a stream stands for.
///
/// The stream is read in pairs. Two equal bytes and the count after them are a run that is longer
/// than the count by two. Of two different bytes, the first is a single pixel and the second
/// belongs to the next pair.
pub open spec fn stream_pixels(s: Seq<u8>) -> Seq<u8>
    decreases s.len(),
{
    if s.len() < 2 {
        Seq::empty()
    } else if s[0] == s[1] {
        let tail = s.skip(2);
        proof {
            lemma_count_len(tail);
        }
        repeated(s[0], 2 + count_value(tail)) + stream_pixels(tail.skip(count_len(tail) as int))
    } else {
        seq![s[0]] + stream_pixels(s.skip(1))
    }
}

/// The stream of compressed data: all but the first byte, which is a flag.
pub open spec fn stream_of(data: Seq<u8>) -> Seq<u8> {
    if data.len() == 0 {
        Seq::empty()
    } else {
        data.skip(1)
    }
}

/// `pixels` cut, or filled up with zeros, to `size`.
pub open spec fn fitted(pixels: Seq<u8>, size: nat) -> Seq<u8> {
    Seq::new(
        size,
        |i: int|
            if i < pixels.len() {
                pixels[i]
            } else {
                0u8
            },
    )
}

/// The image of `size` pixels that compressed data stands for.
pub open spec fn decoded_rle(data: Seq<u8>, size: nat) -> Seq<u8> {
    fitted(stream_pixels(stream_of(data)), size)
}

/// `n`, or the largest machine integer where `n` is larger.
spec fn capped(n: int) -> int {
    if n <= usize::MAX {
        n
    } else {
        usize::MAX as int
    }
}

/// Reads the count at `start`, capped to a machine integer, and returns it with the place after
/// it.
fn read_count(data: &[u8], start: usize) -> (res: (usize, usize))
    requires
        start <= data@.len(),
    ensures
        res.0 == capped(count_value(data@.skip(start as int)) as int),
        res.1 == start + count_len(data@.skip(start as int)),
        res.1 <= data@.len(),
{
    let mut count: usize = 0;
    let mut i: usize = start;
    let ghost whole = data@.skip(start as int);
    proof {
        lemma_count_len(whole);
    }
    while i < data.len() && data[i] == 255
        invariant
            start <= i <= data@.len(),
            whole == data@.skip(start as int),
            full_bytes(whole) == (i - start) + full_bytes(data@.skip(i as int)),
            count == capped(255 * (i - start)),
        decreases data@.len() - i,
    {
        assert(data@.skip(i as int).skip(1) =~= data@.skip(i + 1));
        count = count.saturating_add(255);
        i = i + 1;
    }
    assert(full_bytes(data@.skip(i as int)) == 0);
    if i < data.len() {
        assert(whole[i - start] == data@[i as int]);
        count = count.saturating_add(data[i] as usize);
        i = i + 1;
    }
    (count, i)
}

/// Expands run-length compressed data to an image of `expected_size` pixels.
pub fn decode_grle_rle(data: &[u8], expected_size: usize) -> (out: Vec<u8>)
    ensures
        out@ == decoded_rle(data@, expected_size as nat),
{
    let mut out: Vec<u8> = Vec::new();
    if data.len() > 0 {
        let ghost full = stream_pixels(stream_of(data@));
        let mut i: usize = 1;
        while data.len() - i > 1 && out.len() < expected_size
            invariant
                1 <= i <= data@.len(),
                full == stream_pixels(data@.skip(1)),
                out@.len() <= expected_size,
                out@.len() < expected_size ==> full == out@ + stream_pixels(data@.skip(i as int)),
                out@.len() == expected_size ==> out@ =~= full.take(expected_size as int)
                    && full.len() >= expected_size,
            decreases data@.len() - i,
        {
            let ghost rest = data@.skip(i as int);
            let prev: u8 = data[i];
            let next: u8 = data[i + 1];
            if prev == next {
                let ghost tail = rest.skip(2);
                assert(tail =~= data@.skip(i + 2));
                let (count, after) = read_count(data, i + 2);
                let run: usize = count.saturating_add(2);
                let room: usize = expected_size - out.len();
                let emitted: usize = if run <= room {
                    run
                } else {
                    room
                };
                let ghost before = out@;
                out.resize(out.len() + emitted, prev);
                proof {
                    let rest_pixels = stream_pixels(tail.skip(count_len(tail) as int));
                    assert(tail.skip(count_len(tail) as int) =~= data@.skip(after as int));
                    assert(full == before + (repeated(prev, 2 + count_value(tail)) + rest_pixels));
                    assert(out@ =~= before + repeated(prev, emitted as nat));
                    if out@.len() < expected_size {
                        assert(full =~= out@ + rest_pixels);
                    }
                }
                i = after;
            } else {
                assert(rest.skip(1) =~= data@.skip(i + 1));
                let ghost before = out@;
                out.push(prev);
                assert(full =~= out@ + stream_pixels(data@.skip(i + 1)));
                i = i + 1;
            }
        }
        assert(out@.len() < expected_size ==> full =~= out@);
    } else {
        assert(stream_pixels(stream_of(data@)) =~= Seq::<u8>::empty());
    }
    out.resize(expected_size, 0);
    assert(out@ =~= decoded_rle(data@, expected_size as nat));
    out
}

/// The length of the run of equal pixels that `pixels` starts with.
pub open spec fn leading_run(pixels: Seq<u8>) -> nat
    decreases pixels.len(),
{
    if pixels.len() == 0 {
        0
    } else if pixels.len() > 1 && pixels[1] == pixels[0] {
        1 + leading_run(pixels.skip(1))
    } else {
        1
    }
}

/// A run is not empty, lies within the pixels, holds one value and ends where the value changes.
pub proof fn lemma_leading_run(pixels: Seq<u8>)
    requires
        pixels.len() > 0,
    ensures
        1 <= leading_run(pixels) <= pixels.len(),
        forall|i: int| 0 <= i < leading_run(pixels) ==> #[trigger] pixels[i] == pixels[0],
        leading_run(pixels) < pixels.len() ==> pixels[leading_run(pixels) as int] != pixels[0],
    decreases pixels.len(),
{
    if pixels.len() > 1 && pixels[1] == pixels[0] {
        let rest = pixels.skip(1);
        lemma_leading_run(rest);
        assert forall|i: int| 0 <= i < leading_run(pixels) implies #[trigger] pixels[i] == pixels[0] by {
            if i > 0 {
                assert(rest[i - 1] == pixels[i]);
            }
        }
    }
}

/// The bytes of a count.
pub open spec fn count_bytes(count: nat) -> Seq<u8>
    decreases count,
{
    if count >= 255 {
        seq![255u8] + count_bytes((count - 255) as nat)
    } else {
        seq![count as u8]
    }
}

/// What stands for a run of `n` pixels of value `v`.
pub open spec fn run_bytes(v: u8, n: nat) -> Seq<u8> {
    if n >= 2 {
        seq![v, v] + count_bytes((n - 2) as nat)
    } else {
        seq![v]
    }
}

/// The stream of `pixels`: one run after the other.
pub open spec fn encoded_stream(pixels: Seq<u8>) -> Seq<u8>
    decreases pixels.len(),
{
    if pixels.len() == 0 {
        Seq::empty()
    } else {
        proof {
            lemma_leading_run(pixels);
        }
        run_bytes(pixels[0], leading_run(pixels)) + encoded_stream(
            pixels.skip(leading_run(pixels) as int),
        )
    }
}

/// The compressed data of `pixels`: a zero byte and the stream. A single pixel is stored as a run.
pub open spec fn encoded_rle(pixels: Seq<u8>) -> Seq<u8> {
    if pixels.len() == 1 {
        seq![0u8, pixels[0], pixels[0], 0u8]
    } else {
        seq![0u8] + encoded_stream(pixels)
    }
}

/// A stream is as long as its pixels at least where these are one, and longer than one byte where
/// they are more.
proof fn lemma_stream_len(pixels: Seq<u8>)
    ensures
        pixels.len() == 0 ==> encoded_stream(pixels).len() == 0,
        pixels.len() == 1 ==> encoded_stream(pixels) == seq![pixels[0]],
        pixels.len() > 0 ==> encoded_stream(pixels).len() > 0,
        pixels.len() > 1 ==> encoded_stream(pixels).len() > 1,
    decreases pixels.len(),
{
    if pixels.len() > 0 {
        lemma_leading_run(pixels);
        let rest = pixels.skip(leading_run(pixels) as int);
        lemma_stream_len(rest);
        assert(pixels.len() == 1 ==> encoded_stream(pixels) =~= seq![pixels[0]]);
    }
}

fn push_count(out: &mut Vec<u8>, count: usize)
    ensures
        final(out)@ == old(out)@ + count_bytes(count as nat),
{
    let mut remaining: usize = count;
    while remaining >= 255
        invariant
            out@ + count_bytes(remaining as nat) == old(out)@ + count_bytes(count as nat),
        decreases remaining,
    {
        let ghost before = out@;
        out.push(255);
        remaining = remaining - 255;
        assert(out@ + count_bytes(remaining as nat) =~= before + count_bytes(
            (remaining + 255) as nat,
        ));
    }
    let ghost before = out@;
    out.push(remaining as u8);
    assert(out@ =~= before + count_bytes(remaining as nat));
}

/// Compresses `pixels`.
pub fn encode_grle_rle(pixels: &[u8]) -> (out: Vec<u8>)
    ensures
        out@ == encoded_rle(pixels@),
{
    let mut out: Vec<u8> = Vec::new();
    out.push(0);
    let ghost whole = seq![0u8] + encoded_stream(pixels@);
    let mut i: usize = 0;
    assert(pixels@.skip(0) =~= pixels@);
    assert(out@ + encoded_stream(pixels@.skip(0)) =~= whole);
    while i < pixels.len()
        invariant
            i <= pixels@.len(),
            whole == seq![0u8] + encoded_stream(pixels@),
            out@ + encoded_stream(pixels@.skip(i as int)) == whole,
        decreases pixels@.len() - i,
    {
        let ghost rest = pixels@.skip(i as int);
        let value: u8 = pixels[i];
        let mut run_len: usize = 1;
        proof {
            lemma_leading_run(rest);
        }
        while run_len < pixels.len() - i && pixels[i + run_len] == value
            invariant
                i < pixels@.len(),
                rest == pixels@.skip(i as int),
                value == rest[0],
                1 <= run_len <= pixels@.len() - i,
                forall|j: int| 0 <= j < run_len ==> rest[j] == value,
                leading_run(rest) <= rest.len(),
                leading_run(rest) < rest.len() ==> rest[leading_run(rest) as int] != value,
                run_len <= leading_run(rest),
            decreases pixels@.len() - run_len,
        {
            assert(rest[run_len as int] == value);
            run_len = run_len + 1;
        }
        assert(run_len < rest.len() ==> rest[run_len as int] != value);
        assert(run_len == leading_run(rest)) by {
            lemma_leading_run(rest);
            if run_len < leading_run(rest) {
                assert(rest[run_len as int] == rest[0]);
            }
        }
        let ghost before = out@;
        out.push(value);
        if run_len >= 2 {
            out.push(value);
            push_count(&mut out, run_len - 2);
        }
        proof {
            assert(out@ =~= before + run_bytes(value, run_len as nat));
            assert(rest.skip(run_len as int) =~= pixels@.skip(i + run_len));
            assert(out@ + encoded_stream(pixels@.skip(i + run_len)) =~= before + encoded_stream(
                rest,
            ));
        }
        i = i + run_len;
    }
    proof {
        assert(pixels@.skip(i as int) =~= Seq::<u8>::empty());
        assert(out@ =~= whole);
        lemma_stream_len(pixels@);
    }
    if out.len() == 2 {
        let v: u8 = out[1];
        out.push(v);
        out.push(0);
    }
    assert(out@ =~= encoded_rle(pixels@));
    out
}

} // verus!
