//! Harris corner detection over a grayscale grid, in exact integer arithmetic.
//!
//! Gradients come from a pair of 3x3 kernels; each pixel whose 3x3 window lies
//! inside the grid gets the products (gx², gx·gy, gy²), every other pixel zeros.
//! A corner's score is `25·(A·C − B²) − (A + C)²`, where A, B and C sum those
//! products over the detection window. That is the Harris response
//! `det(M) − 0.04·trace(M)²` of the window-averaged matrix M, multiplied by
//! `25·n²` for a window of `n` pixels, so it orders and compares exactly as the
//! response does once a threshold is scaled the same way.

use crate::dhash::LumaGrid;
use crate::ranking::{is_ranking, leading, rank};
use vstd::arithmetic::div_mod::lemma_fundamental_div_mod_converse;
use vstd::prelude::*;

verus! {

/// A detected corner: its flattened pixel offset `row * width + col` and its score.
#[derive(Clone, Copy, Debug, PartialEq, Eq, Structural)]
pub struct Corner {
    pub index: usize,
    pub score: i128,
}

/// Bound on the magnitude of a kernel response over a 3x3 window of bytes.
pub open spec fn conv_bound() -> int {
    293760
}

/// Bound on the magnitude of each gradient product.
pub open spec fn product_bound() -> int {
    86294937600
}

/// Sum of the first `n` (of nine) products of kernel entries and the pixels of
/// the 3x3 window whose top-left pixel is at row `top`, column `left`.
pub open spec fn conv(px: Seq<u8>, width: int, k: Seq<i8>, top: int, left: int, n: int) -> int
    decreases n,
{
    if n <= 0 {
        0
    } else {
        conv(px, width, k, top, left, n - 1) + k[n - 1] as int * px[(top + (n - 1) / 3) * width
            + left + (n - 1) % 3] as int
    }
}

/// Whether the window of odd size `ws` centred on row `y`, column `x` lies
/// inside a `width` x `height` grid.
pub open spec fn window_fits(width: int, height: int, ws: int, y: int, x: int) -> bool {
    &&& ws / 2 <= y < height - ws / 2
    &&& ws / 2 <= x < width - ws / 2
}

/// The gradient products (gx², gx·gy, gy²) at flattened offset `i`, zeros
/// where the 3x3 window does not fit.
pub open spec fn gradient_products(
    px: Seq<u8>,
    width: int,
    height: int,
    kx: Seq<i8>,
    ky: Seq<i8>,
    i: int,
) -> (int, int, int) {
    let y = i / width;
    let x = i % width;
    if window_fits(width, height, 3, y, x) {
        let gx = conv(px, width, kx, y - 1, x - 1, 9);
        let gy = conv(px, width, ky, y - 1, x - 1, 9);
        (gx * gx, gx * gy, gy * gy)
    } else {
        (0, 0, 0)
    }
}

/// Component `c` (0, 1 or 2) of a gradient product triple.
pub open spec fn part(t: (i64, i64, i64), c: int) -> int {
    if c == 0 {
        t.0 as int
    } else if c == 1 {
        t.1 as int
    } else {
        t.2 as int
    }
}

/// Sum of component `c` over `n` pixels of row `y`, from column `left`.
pub open spec fn row_sum(t: Seq<(i64, i64, i64)>, width: int, y: int, left: int, n: int, c: int) -> int
    decreases n,
{
    if n <= 0 {
        0
    } else {
        row_sum(t, width, y, left, n - 1, c) + part(t[y * width + left + n - 1], c)
    }
}

/// Sum of component `c` over the first `m` rows of the `ws`-wide window whose
/// top-left pixel is at row `top`, column `left`.
pub open spec fn window_sum(
    t: Seq<(i64, i64, i64)>,
    width: int,
    top: int,
    left: int,
    ws: int,
    m: int,
    c: int,
) -> int
    decreases m,
{
    if m <= 0 {
        0
    } else {
        window_sum(t, width, top, left, ws, m - 1, c) + row_sum(t, width, top + m - 1, left, ws, c)
    }
}

/// The scaled Harris response from the window sums of gx², gx·gy and gy².
pub open spec fn harris_response(a: int, b: int, c: int) -> int {
    25 * (a * c - b * b) - (a + c) * (a + c)
}

/// Score of offset `i`: the scaled response of the `ws` window centred there,
/// or zero where that window does not fit.
pub open spec fn score_at(t: Seq<(i64, i64, i64)>, width: int, height: int, ws: int, i: int) -> int {
    let y = i / width;
    let x = i % width;
    if window_fits(width, height, ws, y, x) {
        let top = y - ws / 2;
        let left = x - ws / 2;
        harris_response(
            window_sum(t, width, top, left, ws, ws, 0),
            window_sum(t, width, top, left, ws, ws, 1),
            window_sum(t, width, top, left, ws, ws, 2),
        )
    } else {
        0
    }
}

/// No other offset in the `ws` window centred on `i` scores strictly higher.
pub open spec fn is_local_max(scores: Seq<i128>, width: int, ws: int, i: int) -> bool {
    let top = i / width - ws / 2;
    let left = i % width - ws / 2;
    forall|dy: int, dx: int|
        0 <= dy < ws && 0 <= dx < ws && (top + dy) * width + left + dx != i ==> !(
        #[trigger] scores[(top + dy) * width + left + dx] > scores[i])
}

proof fn lemma_offset(y: int, x: int, width: int, height: int)
    requires
        0 <= y < height,
        0 <= x < width,
    ensures
        0 <= y * width + x < width * height,
        (y * width + x) / width == y,
        (y * width + x) % width == x,
{
    assert(0 <= y * width + x < width * height) by (nonlinear_arith)
        requires
            0 <= y < height,
            0 <= x < width,
    ;
    lemma_fundamental_div_mod_converse(y * width + x, width, y, x);
}

proof fn lemma_conv_bounded(px: Seq<u8>, width: int, k: Seq<i8>, top: int, left: int, n: int)
    requires
        0 <= n <= 9,
    ensures
        -n * 32640 <= conv(px, width, k, top, left, n) <= n * 32640,
    decreases n,
{
    if n > 0 {
        lemma_conv_bounded(px, width, k, top, left, n - 1);
        let a = k[n - 1] as int;
        let b = px[(top + (n - 1) / 3) * width + left + (n - 1) % 3] as int;
        assert(-32640 <= a * b <= 32640) by (nonlinear_arith)
            requires
                -128 <= a <= 127,
                0 <= b <= 255,
        ;
    }
}

/// Response of one kernel over the 3x3 window with top-left pixel at (`top`, `left`).
fn convolve(grid: &LumaGrid, k: &[i8; 9], top: usize, left: usize) -> (r: i64)
    requires
        grid.wf(),
        top + 3 <= grid.height,
        left + 3 <= grid.width,
    ensures
        r == conv(grid.pixels@, grid.width as int, k@, top as int, left as int, 9),
        -conv_bound() <= r <= conv_bound(),
{
    let w = grid.width as usize;
    assert(w as int * grid.height as int == grid.pixels.len());
    let mut sum: i64 = 0;
    let mut j: usize = 0;
    while j < 9
        invariant
            j <= 9,
            w == grid.width,
            grid.wf(),
            w as int * grid.height as int <= usize::MAX,
            top + 3 <= grid.height,
            left + 3 <= grid.width,
            sum == conv(grid.pixels@, w as int, k@, top as int, left as int, j as int),
            -(j as int) * 32640 <= sum <= (j as int) * 32640,
        decreases 9 - j,
    {
        proof {
            lemma_offset((top + j / 3) as int, (left + j % 3) as int, w as int, grid.height as int);
            lemma_conv_bounded(grid.pixels@, w as int, k@, top as int, left as int, j + 1);
        }
        let idx = (top + j / 3) * w + left + j % 3;
        sum = sum + k[j] as i64 * grid.pixels[idx] as i64;
        j = j + 1;
    }
    sum
}

/// The gradient products of every pixel: (gx², gx·gy, gy²) from kernels `kx`
/// and `ky` where the 3x3 window centred on the pixel fits, zeros elsewhere.
pub fn grads(grid: &LumaGrid, kx: &[i8; 9], ky: &[i8; 9]) -> (r: Vec<(i64, i64, i64)>)
    requires
        grid.wf(),
    ensures
        r@.len() == grid.pixels@.len(),
        forall|i: int|
            0 <= i < r@.len() ==> {
                let g = gradient_products(grid.pixels@, grid.width as int, grid.height as int, kx@, ky@, i);
                &&& (#[trigger] r@[i]).0 == g.0
                &&& r@[i].1 == g.1
                &&& r@[i].2 == g.2
            },
        forall|i: int, c: int|
            0 <= i < r@.len() ==> -product_bound() <= #[trigger] part(r@[i], c) <= product_bound(),
{
    let w = grid.width as usize;
    let h = grid.height as usize;
    let ghost px = grid.pixels@;
    assert(w as int * h as int == grid.pixels.len());
    let mut out: Vec<(i64, i64, i64)> = Vec::new();
    let mut y: usize = 0;
    while y < h
        invariant
            y <= h,
            w == grid.width,
            h == grid.height,
            px == grid.pixels@,
            grid.wf(),
            w as int * h as int <= usize::MAX,
            out@.len() == y * w,
            forall|i: int|
                0 <= i < out@.len() ==> {
                    let g = gradient_products(px, w as int, h as int, kx@, ky@, i);
                    &&& (#[trigger] out@[i]).0 == g.0
                    &&& out@[i].1 == g.1
                    &&& out@[i].2 == g.2
                },
            forall|i: int, c: int|
                0 <= i < out@.len() ==> -product_bound() <= #[trigger] part(out@[i], c)
                    <= product_bound(),
        decreases h - y,
    {
        let mut x: usize = 0;
        while x < w
            invariant
                y < h,
                x <= w,
                w == grid.width,
                h == grid.height,
                px == grid.pixels@,
                grid.wf(),
                w as int * h as int <= usize::MAX,
                out@.len() == y * w + x,
                forall|i: int|
                    0 <= i < out@.len() ==> {
                        let g = gradient_products(px, w as int, h as int, kx@, ky@, i);
                        &&& (#[trigger] out@[i]).0 == g.0
                        &&& out@[i].1 == g.1
                        &&& out@[i].2 == g.2
                    },
                forall|i: int, c: int|
                    0 <= i < out@.len() ==> -product_bound() <= #[trigger] part(out@[i], c)
                        <= product_bound(),
            decreases w - x,
        {
            proof {
                lemma_offset(y as int, x as int, w as int, h as int);
            }
            let t: (i64, i64, i64) = if 1 <= y && y + 1 < h && 1 <= x && x + 1 < w {
                let gx = convolve(grid, kx, y - 1, x - 1);
                let gy = convolve(grid, ky, y - 1, x - 1);
                assert(-product_bound() <= gx * gx <= product_bound()) by (nonlinear_arith)
                    requires
                        -conv_bound() <= gx <= conv_bound(),
                ;
                assert(-product_bound() <= gx * gy <= product_bound()) by (nonlinear_arith)
                    requires
                        -conv_bound() <= gx <= conv_bound(),
                        -conv_bound() <= gy <= conv_bound(),
                ;
                assert(-product_bound() <= gy * gy <= product_bound()) by (nonlinear_arith)
                    requires
                        -conv_bound() <= gy <= conv_bound(),
                ;
                (gx * gx, gx * gy, gy * gy)
            } else {
                (0, 0, 0)
            };
            out.push(t);
            x = x + 1;
        }
        assert(out@.len() == (y + 1) * w) by (nonlinear_arith)
            requires
                out@.len() == y * w + w,
        ;
        y = y + 1;
    }
    assert(out@.len() == w as int * h as int) by (nonlinear_arith)
        requires
            out@.len() == y * w,
            y == h,
    ;
    out
}

/// The gradient products of every pixel of a `width` x `height` grid.
pub open spec fn product_field(
    px: Seq<u8>,
    width: int,
    height: int,
    kx: Seq<i8>,
    ky: Seq<i8>,
) -> Seq<(i64, i64, i64)> {
    Seq::new(
        (width * height) as nat,
        |i: int|
            {
                let g = gradient_products(px, width, height, kx, ky, i);
                (g.0 as i64, g.1 as i64, g.2 as i64)
            },
    )
}

/// The horizontal Sobel kernel, row by row.
pub open spec fn sobel_x() -> Seq<i8> {
    seq![1i8, 0i8, -1i8, 2i8, 0i8, -2i8, 1i8, 0i8, -1i8]
}

/// The vertical Sobel kernel, row by row.
pub open spec fn sobel_y() -> Seq<i8> {
    seq![1i8, 2i8, 1i8, 0i8, 0i8, 0i8, -1i8, -2i8, -1i8]
}

/// The score of every offset of the grid for window size `ws`, from Sobel gradients.
pub open spec fn harris_scores(grid: &LumaGrid, ws: int) -> Seq<i128> {
    let w = grid.width as int;
    let h = grid.height as int;
    let field = product_field(grid.pixels@, w, h, sobel_x(), sobel_y());
    Seq::new((w * h) as nat, |i: int| score_at(field, w, h, ws, i) as i128)
}

/// The local maxima among the window centres below offset `k`, in scan order.
pub open spec fn peaks_below(scores: Seq<i128>, width: int, height: int, ws: int, k: int) -> Seq<(i128, usize)>
    decreases k,
{
    if k <= 0 {
        Seq::empty()
    } else {
        let before = peaks_below(scores, width, height, ws, k - 1);
        let i = k - 1;
        if window_fits(width, height, ws, i / width, i % width) && is_local_max(scores, width, ws, i) {
            before.push((scores[i], i as usize))
        } else {
            before
        }
    }
}

/// The entries of `s` whose score exceeds `threshold`, in order.
pub open spec fn above(s: Seq<(i128, usize)>, threshold: i128) -> Seq<(i128, usize)>
    decreases s.len(),
{
    if s.len() == 0 {
        s
    } else if s.last().0 > threshold {
        above(s.drop_last(), threshold).push(s.last())
    } else {
        above(s.drop_last(), threshold)
    }
}

/// Largest magnitude of a window sum.
pub open spec fn sum_bound() -> int {
    1048576 * product_bound()
}

/// Sums of gx², gx·gy and gy² over the `ws` x `ws` window with top-left
/// pixel at (`top`, `left`).
fn sum_window(
    t: &Vec<(i64, i64, i64)>,
    width: usize,
    height: usize,
    top: usize,
    left: usize,
    ws: usize,
) -> (r: (i128, i128, i128))
    requires
        t@.len() == width * height,
        top + ws <= height,
        left + ws <= width,
        ws <= 1024,
        forall|i: int, c: int| 0 <= i < t@.len() ==> -product_bound() <= #[trigger] part(t@[i], c) <= product_bound(),
    ensures
        r.0 == window_sum(t@, width as int, top as int, left as int, ws as int, ws as int, 0),
        r.1 == window_sum(t@, width as int, top as int, left as int, ws as int, ws as int, 1),
        r.2 == window_sum(t@, width as int, top as int, left as int, ws as int, ws as int, 2),
        -sum_bound() <= r.0 <= sum_bound(),
        -sum_bound() <= r.1 <= sum_bound(),
        -sum_bound() <= r.2 <= sum_bound(),
{
    assert(t.len() == width * height);
    let ghost tv = t@;
    let ghost (wi, ti, li, wsi) = (width as int, top as int, left as int, ws as int);
    let mut a: i128 = 0;
    let mut b: i128 = 0;
    let mut c: i128 = 0;
    let mut dy: usize = 0;
    while dy < ws
        invariant
            dy <= ws,
            ws <= 1024,
            t@.len() == width * height,
            width * height <= usize::MAX,
            top + ws <= height,
            left + ws <= width,
            tv == t@,
            wi == width,
            ti == top,
            li == left,
            wsi == ws,
            forall|i: int, c: int| 0 <= i < t@.len() ==> -product_bound() <= #[trigger] part(t@[i], c) <= product_bound(),
            a == window_sum(tv, wi, ti, li, wsi, dy as int, 0),
            b == window_sum(tv, wi, ti, li, wsi, dy as int, 1),
            c == window_sum(tv, wi, ti, li, wsi, dy as int, 2),
            -(dy * ws) * product_bound() <= a <= (dy * ws) * product_bound(),
            -(dy * ws) * product_bound() <= b <= (dy * ws) * product_bound(),
            -(dy * ws) * product_bound() <= c <= (dy * ws) * product_bound(),
            dy * ws <= ws * ws,
        decreases ws - dy,
    {
        let mut ra: i128 = 0;
        let mut rb: i128 = 0;
        let mut rc: i128 = 0;
        let mut dx: usize = 0;
        while dx < ws
            invariant
                dy < ws,
                dx <= ws,
                ws <= 1024,
                t@.len() == width * height,
                width * height <= usize::MAX,
                top + ws <= height,
                left + ws <= width,
                tv == t@,
                wi == width,
                ti == top,
                li == left,
                wsi == ws,
                forall|i: int, c: int| 0 <= i < t@.len() ==> -product_bound() <= #[trigger] part(t@[i], c) <= product_bound(),
                ra == row_sum(tv, wi, ti + dy, li, dx as int, 0),
                rb == row_sum(tv, wi, ti + dy, li, dx as int, 1),
                rc == row_sum(tv, wi, ti + dy, li, dx as int, 2),
                -dx * product_bound() <= ra <= dx * product_bound(),
                -dx * product_bound() <= rb <= dx * product_bound(),
                -dx * product_bound() <= rc <= dx * product_bound(),
            decreases ws - dx,
        {
            proof {
                lemma_offset((top + dy) as int, (left + dx) as int, width as int, height as int);
            }
            let e = t[(top + dy) * width + left + dx];
            assert(part(e, 0) == e.0 && part(e, 1) == e.1 && part(e, 2) == e.2);
            ra = ra + e.0 as i128;
            rb = rb + e.1 as i128;
            rc = rc + e.2 as i128;
            dx = dx + 1;
        }
        proof {
            assert((dy + 1) * ws == dy * ws + ws) by (nonlinear_arith);
            assert((dy + 1) * ws <= ws * ws) by (nonlinear_arith)
                requires
                    dy < ws,
            ;
            assert(ws * ws <= 1048576) by (nonlinear_arith)
                requires
                    ws <= 1024,
            ;
        }
        a = a + ra;
        b = b + rb;
        c = c + rc;
        dy = dy + 1;
    }
    proof {
        assert(ws * ws <= 1048576) by (nonlinear_arith)
            requires
                ws <= 1024,
        ;
        assert(dy * ws * product_bound() <= sum_bound()) by (nonlinear_arith)
            requires
                dy * ws <= ws * ws,
                ws * ws <= 1048576,
        ;
    }
    (a, b, c)
}

/// The scaled Harris response of window sums, exactly.
fn response(a: i128, b: i128, c: i128) -> (r: i128)
    requires
        -sum_bound() <= a <= sum_bound(),
        -sum_bound() <= b <= sum_bound(),
        -sum_bound() <= c <= sum_bound(),
    ensures
        r == harris_response(a as int, b as int, c as int),
{
    let ghost q: int = 8187861062710319998341753077760000;
    assert(sum_bound() == 90486800488857600);
    assert(-q <= a * c <= q) by (nonlinear_arith)
        requires
            -90486800488857600 <= a <= 90486800488857600,
            -90486800488857600 <= c <= 90486800488857600,
            q == 8187861062710319998341753077760000,
    ;
    assert(0 <= b * b <= q) by (nonlinear_arith)
        requires
            -90486800488857600 <= b <= 90486800488857600,
            q == 8187861062710319998341753077760000,
    ;
    assert(0 <= (a + c) * (a + c) <= 4 * q) by (nonlinear_arith)
        requires
            -90486800488857600 <= a <= 90486800488857600,
            -90486800488857600 <= c <= 90486800488857600,
            q == 8187861062710319998341753077760000,
    ;
    let det = a * c - b * b;
    let trace = a + c;
    25 * det - trace * trace
}

/// `r` lists the entries of `s` as corners, in order.
pub open spec fn lists_corners(r: Seq<Corner>, s: Seq<(i128, usize)>) -> bool {
    &&& r.len() == s.len()
    &&& forall|j: int| 0 <= j < r.len() ==> (#[trigger] r[j]).index == s[j].1 && r[j].score == s[j].0
}

/// The score of every offset for window size `ws`.
fn score_all(t: &Vec<(i64, i64, i64)>, width: usize, height: usize, ws: usize) -> (r: Vec<i128>)
    requires
        t@.len() == width * height,
        ws % 2 == 1,
        ws <= 1024,
        ws <= width,
        ws <= height,
        forall|i: int, c: int| 0 <= i < t@.len() ==> -product_bound() <= #[trigger] part(t@[i], c) <= product_bound(),
    ensures
        r@.len() == width * height,
        forall|i: int| 0 <= i < r@.len() ==> #[trigger] r@[i] == score_at(t@, width as int, height as int, ws as int, i),
{
    assert(t.len() == width * height);
    let half = ws / 2;
    let mut out: Vec<i128> = Vec::new();
    let mut y: usize = 0;
    while y < height
        invariant
            y <= height,
            t@.len() == width * height,
            width * height <= usize::MAX,
            ws % 2 == 1,
            ws <= 1024,
            ws <= width,
            ws <= height,
            half == ws / 2,
            forall|i: int, c: int| 0 <= i < t@.len() ==> -product_bound() <= #[trigger] part(t@[i], c) <= product_bound(),
            out@.len() == y * width,
            forall|i: int| 0 <= i < out@.len() ==> #[trigger] out@[i] == score_at(t@, width as int, height as int, ws as int, i),
        decreases height - y,
    {
        let mut x: usize = 0;
        while x < width
            invariant
                y < height,
                x <= width,
                t@.len() == width * height,
                width * height <= usize::MAX,
                ws % 2 == 1,
                ws <= 1024,
                ws <= width,
                ws <= height,
                half == ws / 2,
                forall|i: int, c: int| 0 <= i < t@.len() ==> -product_bound() <= #[trigger] part(t@[i], c) <= product_bound(),
                out@.len() == y * width + x,
                forall|i: int| 0 <= i < out@.len() ==> #[trigger] out@[i] == score_at(t@, width as int, height as int, ws as int, i),
            decreases width - x,
        {
            proof {
                lemma_offset(y as int, x as int, width as int, height as int);
            }
            let v: i128 = if half <= y && height - y > half && half <= x && width - x > half {
                let sums = sum_window(t, width, height, y - half, x - half, ws);
                response(sums.0, sums.1, sums.2)
            } else {
                0
            };
            out.push(v);
            x = x + 1;
        }
        assert(out@.len() == (y + 1) * width) by (nonlinear_arith)
            requires
                out@.len() == y * width + width,
        ;
        y = y + 1;
    }
    assert(out@.len() == width * height) by (nonlinear_arith)
        requires
            out@.len() == y * width,
            y == height,
    ;
    out
}

/// Whether no other offset in the window centred on (`y`, `x`) scores strictly higher.
fn is_peak(scores: &Vec<i128>, width: usize, height: usize, ws: usize, y: usize, x: usize) -> (r: bool)
    requires
        scores@.len() == width * height,
        ws % 2 == 1,
        window_fits(width as int, height as int, ws as int, y as int, x as int),
    ensures
        r == is_local_max(scores@, width as int, ws as int, y * width + x),
{
    assert(scores.len() == width * height);
    proof {
        lemma_offset(y as int, x as int, width as int, height as int);
    }
    let i = y * width + x;
    let top = y - ws / 2;
    let left = x - ws / 2;
    let mut dy: usize = 0;
    while dy < ws
        invariant
            dy <= ws,
            scores@.len() == width * height,
            width * height <= usize::MAX,
            ws % 2 == 1,
            window_fits(width as int, height as int, ws as int, y as int, x as int),
            i == y * width + x,
            i < width * height,
            (i as int) / (width as int) == y,
            (i as int) % (width as int) == x,
            top == y - ws / 2,
            left == x - ws / 2,
            forall|dy2: int, dx: int|
                0 <= dy2 < dy && 0 <= dx < ws && (top + dy2) * width + left + dx != i ==> !(
                #[trigger] scores@[(top + dy2) * width + left + dx] > scores@[i as int]),
        decreases ws - dy,
    {
        let mut dx: usize = 0;
        while dx < ws
            invariant
                dy < ws,
                dx <= ws,
                scores@.len() == width * height,
                width * height <= usize::MAX,
                ws % 2 == 1,
                window_fits(width as int, height as int, ws as int, y as int, x as int),
                i == y * width + x,
                i < width * height,
                (i as int) / (width as int) == y,
                (i as int) % (width as int) == x,
                top == y - ws / 2,
                left == x - ws / 2,
                forall|dy2: int, dx2: int|
                    ((0 <= dy2 < dy && 0 <= dx2 < ws) || (dy2 == dy && 0 <= dx2 < dx)) && (top
                        + dy2) * width + left + dx2 != i ==> !(#[trigger] scores@[(top + dy2) * width
                        + left + dx2] > scores@[i as int]),
            decreases ws - dx,
        {
            proof {
                lemma_offset((top + dy) as int, (left + dx) as int, width as int, height as int);
            }
            let j = (top + dy) * width + left + dx;
            if j != i && scores[j] > scores[i] {
                assert(scores@[(top + dy) * width + left + dx] > scores@[i as int]);
                return false;
            }
            dx = dx + 1;
        }
        dy = dy + 1;
    }
    true
}

/// The window centres that are local maxima, with their scores, in scan order.
fn collect_peaks(scores: &Vec<i128>, width: usize, height: usize, ws: usize) -> (r: Vec<(i128, usize)>)
    requires
        scores@.len() == width * height,
        ws % 2 == 1,
    ensures
        r@ == peaks_below(scores@, width as int, height as int, ws as int, width * height),
{
    assert(scores.len() == width * height);
    let half = ws / 2;
    let mut out: Vec<(i128, usize)> = Vec::new();
    let mut y: usize = 0;
    while y < height
        invariant
            y <= height,
            scores@.len() == width * height,
            width * height <= usize::MAX,
            ws % 2 == 1,
            half == ws / 2,
            out@ == peaks_below(scores@, width as int, height as int, ws as int, y * width),
        decreases height - y,
    {
        let mut x: usize = 0;
        while x < width
            invariant
                y < height,
                x <= width,
                scores@.len() == width * height,
                width * height <= usize::MAX,
                ws % 2 == 1,
                half == ws / 2,
                out@ == peaks_below(scores@, width as int, height as int, ws as int, y * width + x),
            decreases width - x,
        {
            proof {
                lemma_offset(y as int, x as int, width as int, height as int);
            }
            let i = y * width + x;
            if half <= y && height - y > half && half <= x && width - x > half {
                if is_peak(scores, width, height, ws, y, x) {
                    out.push((scores[i], i));
                }
            }
            x = x + 1;
        }
        assert((y + 1) * width == y * width + width) by (nonlinear_arith);
        y = y + 1;
    }
    assert(y * width == width * height) by (nonlinear_arith)
        requires
            y == height,
    ;
    out
}

/// Detects corners with the Harris response over windows of `window_size`
/// pixels a side: window centres that no other pixel of their window
/// outscores, ranked from the highest score; of the first `num_corners` of
/// them, those scoring above `threshold`. Windows are at most 1024 pixels a
/// side, so that every window sum and score is exact in 128 bits.
pub fn harris(grid: &LumaGrid, window_size: usize, num_corners: usize, threshold: i128) -> (r: Vec<Corner>)
    requires
        grid.wf(),
        window_size % 2 == 1,
        window_size <= 1024,
        window_size <= grid.width,
        window_size <= grid.height,
        grid.width >= 3,
        grid.height >= 3,
    ensures
        exists|s: Seq<(i128, usize)>|
            {
                &&& is_ranking(
                    s,
                    peaks_below(
                        harris_scores(grid, window_size as int),
                        grid.width as int,
                        grid.height as int,
                        window_size as int,
                        grid.width * grid.height,
                    ),
                )
                &&& lists_corners(r@, above(leading(s, num_corners as int), threshold))
            },
        r.len() <= num_corners,
        forall|j: int| 0 <= j < r.len() ==> (#[trigger] r@[j]).score > threshold,
{
    let w = grid.width as usize;
    let h = grid.height as usize;
    let kx: [i8; 9] = [1, 0, -1, 2, 0, -2, 1, 0, -1];
    let ky: [i8; 9] = [1, 2, 1, 0, 0, 0, -1, -2, -1];
    assert(kx@ =~= sobel_x());
    assert(ky@ =~= sobel_y());
    let t = grads(grid, &kx, &ky);
    let ghost field = product_field(grid.pixels@, w as int, h as int, sobel_x(), sobel_y());
    assert(t@ =~= field);
    let scores = score_all(&t, w, h, window_size);
    assert(scores@ =~= harris_scores(grid, window_size as int));
    let peaks = collect_peaks(&scores, w, h, window_size);
    let ranked = rank(&peaks);
    let m: usize = if num_corners < ranked.len() {
        num_corners
    } else {
        ranked.len()
    };
    let ghost top = leading(ranked@, num_corners as int);
    assert(top =~= ranked@.take(m as int));
    let mut corners: Vec<Corner> = Vec::new();
    let mut k: usize = 0;
    while k < m
        invariant
            k <= m,
            m <= ranked.len(),
            m <= num_corners,
            top == ranked@.take(m as int),
            corners.len() <= k,
            lists_corners(corners@, above(ranked@.take(k as int), threshold)),
            forall|j: int| 0 <= j < corners.len() ==> (#[trigger] corners@[j]).score > threshold,
        decreases m - k,
    {
        assert(ranked@.take(k + 1).drop_last() =~= ranked@.take(k as int));
        let e = ranked[k];
        if e.0 > threshold {
            corners.push(Corner { index: e.1, score: e.0 });
        }
        k = k + 1;
    }
    corners
}

} // verus!
