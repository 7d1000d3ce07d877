use crate::pixel::Pixel;
use vstd::arithmetic::div_mod::{lemma_div_multiples_vanish, lemma_fundamental_div_mod};
use vstd::arithmetic::mul::{lemma_mul_inequality, lemma_mul_strictly_positive};
use vstd::prelude::*;

verus! {

/// One channel of a pixel, selected by `c`: 0 is r, 1 is g, 2 is b, any
/// other value is a.
pub open spec fn chan(p: Pixel, c: int) -> int {
    if c == 0 {
        p.r as int
    } else if c == 1 {
        p.g as int
    } else if c == 2 {
        p.b as int
    } else {
        p.a as int
    }
}

/// The sum of channel `c` over the `n` pixels of row `iy` that start at
/// column `x0`, in an image `w` pixels wide stored row-major in `s`.
pub open spec fn row_sum(s: Seq<Pixel>, w: int, iy: int, x0: int, n: int, c: int) -> int
    decreases n,
{
    if n <= 0 {
        0
    } else {
        row_sum(s, w, iy, x0, n - 1, c) + chan(s[x0 + (n - 1) + iy * w], c)
    }
}

/// The sum of channel `c` over the `nx` by `ny` block of pixels whose top
/// left corner is at column `x0` of row `y0`.
pub open spec fn block_sum(s: Seq<Pixel>, w: int, x0: int, y0: int, nx: int, ny: int, c: int) -> int
    decreases ny,
{
    if ny <= 0 {
        0
    } else {
        block_sum(s, w, x0, y0, nx, ny - 1, c) + row_sum(s, w, y0 + (ny - 1), x0, nx, c)
    }
}

/// The output pixel for block `(x, y)` of a downsampling by `f`: each
/// channel is the floor average of the channel over the source block.
pub open spec fn block_avg_pixel(s: Seq<Pixel>, w: int, x: int, y: int, f: int) -> Pixel {
    Pixel {
        r: (block_sum(s, w, x * f, y * f, f, f, 0) / (f * f)) as u16,
        g: (block_sum(s, w, x * f, y * f, f, f, 1) / (f * f)) as u16,
        b: (block_sum(s, w, x * f, y * f, f, f, 2) / (f * f)) as u16,
        a: (block_sum(s, w, x * f, y * f, f, f, 3) / (f * f)) as u16,
    }
}

/// A row of identical pixels sums to the pixel's channel taken `n` times.
pub proof fn lemma_row_sum_uniform(
    s: Seq<Pixel>,
    w: int,
    iy: int,
    x0: int,
    n: int,
    c: int,
    p: Pixel,
)
    requires
        forall|i: int| 0 <= i < s.len() ==> s[i] == p,
        0 <= x0,
        0 <= iy,
        0 <= n,
        x0 + n <= w,
        (iy + 1) * w <= s.len(),
    ensures
        row_sum(s, w, iy, x0, n, c) == n * chan(p, c),
    decreases n,
{
    if n > 0 {
        lemma_row_sum_uniform(s, w, iy, x0, n - 1, c, p);
        assert(0 <= x0 + (n - 1) + iy * w < s.len()) by (nonlinear_arith)
            requires
                0 <= x0,
                0 <= iy,
                1 <= n,
                x0 + n <= w,
                (iy + 1) * w <= s.len(),
        ;
        assert(s[x0 + (n - 1) + iy * w] == p);
        assert(n * chan(p, c) == (n - 1) * chan(p, c) + chan(p, c)) by (nonlinear_arith);
    } else {
        assert(n * chan(p, c) == 0) by (nonlinear_arith)
            requires
                n == 0,
        ;
    }
}

/// A block of identical pixels sums to the pixel's channel taken once per
/// block cell.
pub proof fn lemma_block_sum_uniform(
    s: Seq<Pixel>,
    w: int,
    x0: int,
    y0: int,
    nx: int,
    ny: int,
    c: int,
    p: Pixel,
)
    requires
        forall|i: int| 0 <= i < s.len() ==> s[i] == p,
        0 <= x0,
        0 <= y0,
        0 <= nx,
        0 <= ny,
        x0 + nx <= w,
        (y0 + ny) * w <= s.len(),
    ensures
        block_sum(s, w, x0, y0, nx, ny, c) == nx * ny * chan(p, c),
    decreases ny,
{
    if ny > 0 {
        assert((y0 + (ny - 1)) * w <= (y0 + ny) * w) by (nonlinear_arith)
            requires
                0 <= w,
        ;
        lemma_block_sum_uniform(s, w, x0, y0, nx, ny - 1, c, p);
        lemma_row_sum_uniform(s, w, y0 + (ny - 1), x0, nx, c, p);
        assert(nx * ny * chan(p, c) == nx * (ny - 1) * chan(p, c) + nx * chan(p, c))
            by (nonlinear_arith);
    } else {
        assert(nx * ny * chan(p, c) == 0) by (nonlinear_arith)
            requires
                ny == 0,
        ;
    }
}

/// Downsampling a uniform image reproduces its pixel exactly: the average
/// of a block whose every cell is `p` is `p`, with no rounding error.
pub proof fn lemma_pixelize_uniform(
    s: Seq<Pixel>,
    width: u32,
    height: u32,
    factor: u32,
    p: Pixel,
    x: int,
    y: int,
)
    requires
        s.len() == width as int * height as int,
        forall|i: int| 0 <= i < s.len() ==> s[i] == p,
        factor > 0,
        width % factor == 0,
        height % factor == 0,
        0 <= x < width as int / factor as int,
        0 <= y < height as int / factor as int,
    ensures
        block_avg_pixel(s, width as int, x, y, factor as int) == p,
{
    let w: int = width as int;
    let h: int = height as int;
    let f: int = factor as int;
    lemma_fundamental_div_mod(w, f);
    lemma_fundamental_div_mod(h, f);
    assert(x * f + f <= w) by (nonlinear_arith)
        requires
            f > 0,
            0 <= x,
            x < w / f,
            w == f * (w / f),
    ;
    assert((y * f + f) * w <= h * w) by (nonlinear_arith)
        requires
            f > 0,
            0 <= w,
            0 <= y,
            y < h / f,
            h == f * (h / f),
    ;
    assert(h * w == s.len()) by (nonlinear_arith)
        requires
            s.len() == w * h,
    ;
    assert(0 <= x * f && 0 <= y * f) by (nonlinear_arith)
        requires
            0 <= x,
            0 <= y,
            f > 0,
    ;
    lemma_mul_strictly_positive(f, f);
    lemma_block_sum_uniform(s, w, x * f, y * f, f, f, 0, p);
    lemma_block_sum_uniform(s, w, x * f, y * f, f, f, 1, p);
    lemma_block_sum_uniform(s, w, x * f, y * f, f, f, 2, p);
    lemma_block_sum_uniform(s, w, x * f, y * f, f, f, 3, p);
    lemma_div_multiples_vanish(chan(p, 0), f * f);
    lemma_div_multiples_vanish(chan(p, 1), f * f);
    lemma_div_multiples_vanish(chan(p, 2), f * f);
    lemma_div_multiples_vanish(chan(p, 3), f * f);
}

} // verus!
