//! A square image cut into square chunks.
//!
//! An image of `cpd` chunks in each direction, each `cs` pixels wide and high, is `cs * cpd` pixels
//! wide and high. Pixels are numbered row by row, and so are chunks, and the pixels of a chunk.

use vstd::arithmetic::div_mod::*;
use vstd::prelude::*;

verus! {

/// The image pixel that is pixel `k` of chunk `c`.
pub open spec fn pixel_index(cs: int, cpd: int, c: int, k: int) -> int {
    ((c / cpd) * cs + k / cs) * (cs * cpd) + ((c % cpd) * cs + k % cs)
}

/// The chunk that holds image pixel `px`.
pub open spec fn chunk_of(cs: int, cpd: int, px: int) -> int {
    (px / (cs * cpd) / cs) * cpd + (px % (cs * cpd)) / cs
}

/// The number of image pixel `px` within its chunk.
pub open spec fn place_of(cs: int, cpd: int, px: int) -> int {
    (px / (cs * cpd) % cs) * cs + (px % (cs * cpd)) % cs
}

proof fn lemma_below_product(q: int, r: int, n: int, d: int)
    requires
        0 <= q < n,
        0 <= r < d,
    ensures
        0 <= q * d + r < n * d,
{
    assert(0 <= q * d + r < n * d) by (nonlinear_arith)
        requires
            0 <= q < n,
            0 <= r < d,
    ;
}

/// The quotient and the remainder of a number below a product.
proof fn lemma_split(x: int, n: int, d: int)
    requires
        0 < n,
        0 < d,
        0 <= x < n * d,
    ensures
        0 <= x / d < n,
        0 <= x % d < d,
        x == (x / d) * d + x % d,
{
    lemma_fundamental_div_mod(x, d);
    let q = x / d;
    let r = x % d;
    assert(0 <= q < n && x == q * d + r) by (nonlinear_arith)
        requires
            0 < n,
            0 < d,
            0 <= r < d,
            x == d * q + r,
            0 <= x < n * d,
    ;
}

/// Every pixel of a chunk is a pixel of the image, and lies where its number says.
pub proof fn lemma_pixel_index(cs: int, cpd: int, c: int, k: int)
    requires
        0 < cs,
        0 < cpd,
        0 <= c < cpd * cpd,
        0 <= k < cs * cs,
    ensures
        0 <= pixel_index(cs, cpd, c, k) < (cs * cpd) * (cs * cpd),
        0 <= c / cpd < cpd,
        0 <= c % cpd < cpd,
        0 <= k / cs < cs,
        0 <= k % cs < cs,
        0 <= (c / cpd) * cs + k / cs < cs * cpd,
        0 <= (c % cpd) * cs + k % cs < cs * cpd,
        chunk_of(cs, cpd, pixel_index(cs, cpd, c, k)) == c,
        place_of(cs, cpd, pixel_index(cs, cpd, c, k)) == k,
{
    let dim = cs * cpd;
    assert(dim == cpd * cs) by (nonlinear_arith)
        requires
            dim == cs * cpd,
    ;
    lemma_split(c, cpd, cpd);
    lemma_split(k, cs, cs);
    let y = (c / cpd) * cs + k / cs;
    let x = (c % cpd) * cs + k % cs;
    lemma_below_product(c / cpd, k / cs, cpd, cs);
    lemma_below_product(c % cpd, k % cs, cpd, cs);
    lemma_below_product(y, x, dim, dim);
    let px = y * dim + x;
    lemma_fundamental_div_mod_converse(px, dim, y, x);
    lemma_fundamental_div_mod_converse(y, cs, c / cpd, k / cs);
    lemma_fundamental_div_mod_converse(x, cs, c % cpd, k % cs);
}

/// Every pixel of the image is the pixel of a chunk.
pub proof fn lemma_chunk_of(cs: int, cpd: int, px: int)
    requires
        0 < cs,
        0 < cpd,
        0 <= px < (cs * cpd) * (cs * cpd),
    ensures
        0 <= chunk_of(cs, cpd, px) < cpd * cpd,
        0 <= place_of(cs, cpd, px) < cs * cs,
        pixel_index(cs, cpd, chunk_of(cs, cpd, px), place_of(cs, cpd, px)) == px,
{
    let dim = cs * cpd;
    assert(dim == cpd * cs && dim > 0) by (nonlinear_arith)
        requires
            dim == cs * cpd,
            0 < cs,
            0 < cpd,
    ;
    lemma_split(px, dim, dim);
    let y = px / dim;
    let x = px % dim;
    lemma_split(y, cpd, cs);
    lemma_split(x, cpd, cs);
    let c = chunk_of(cs, cpd, px);
    let k = place_of(cs, cpd, px);
    lemma_below_product(y / cs, x / cs, cpd, cpd);
    lemma_below_product(y % cs, x % cs, cs, cs);
    lemma_fundamental_div_mod_converse(c, cpd, y / cs, x / cs);
    lemma_fundamental_div_mod_converse(k, cs, y % cs, x % cs);
}

} // verus!
