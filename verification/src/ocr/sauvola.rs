//! Sauvola's locally adaptive threshold.
//!
//! A pixel is compared with `mean * (1 + k * (std / R - 1))`, where `mean`
//! and `std` are the mean and the standard deviation of the pixels in a
//! square window around it, `k` is 0.34 and `R` is 128. The comparison is
//! made in whole numbers, squared out so that no root is taken. The sums
//! over a window come from two summed-area tables.

use crate::raster::{lemma_pixel_index, GrayImage};
use vstd::arithmetic::div_mod::lemma_fundamental_div_mod_converse;
use vstd::prelude::*;

verus! {

/// The diameter of the window, in pixels.
pub const SAUVOLA_WINDOW: u32 = 25;

/// What a pixel value counts for in a sum of values.
pub open spec fn plain() -> spec_fn(u8) -> int {
    |p: u8| p as int
}

/// What a pixel value counts for in a sum of squares.
pub open spec fn squared() -> spec_fn(u8) -> int {
    |p: u8| p * p
}

/// The sum of `f` over the pixels of row `y` from column `x0` to column
/// `x1`, the latter excluded.
pub open spec fn row_sum(img: GrayImage, f: spec_fn(u8) -> int, y: int, x0: int, x1: int) -> int
    decreases x1 - x0,
{
    if x1 <= x0 {
        0
    } else {
        row_sum(img, f, y, x0, x1 - 1) + f(img.pixel(x1 - 1, y))
    }
}

/// The sum of `f` over the pixels of the rectangle from `(x0, y0)` to
/// `(x1, y1)`, the latter excluded.
pub open spec fn window_sum(
    img: GrayImage,
    f: spec_fn(u8) -> int,
    x0: int,
    y0: int,
    x1: int,
    y1: int,
) -> int
    decreases y1 - y0,
{
    if y1 <= y0 {
        0
    } else {
        window_sum(img, f, x0, y0, x1, y1 - 1) + row_sum(img, f, y1 - 1, x0, x1)
    }
}

/// The first column or row of the window around position `c`.
pub open spec fn window_lo(c: int) -> int {
    if c < SAUVOLA_WINDOW / 2 {
        0
    } else {
        c - SAUVOLA_WINDOW / 2
    }
}

/// The column or row after the last one of the window around position `c`.
pub open spec fn window_hi(c: int, side: int) -> int {
    if c + SAUVOLA_WINDOW / 2 + 1 > side {
        side
    } else {
        c + SAUVOLA_WINDOW / 2 + 1
    }
}

/// A pixel of value `pv` is at or above the threshold of a window of `n`
/// pixels whose values sum to `sum` and whose squares sum to `sumsq`.
///
/// With `mean = sum / n` and `std = sqrt(max(sumsq / n - mean * mean, 0))`
/// this is `pv >= mean * (1 + 0.34 * (std / 128 - 1))`, both sides
/// multiplied by `50 * 128 * n * n` and squared.
pub open spec fn at_or_above_threshold(pv: int, n: int, sum: int, sumsq: int) -> bool {
    let lhs = 128 * n * (50 * n * pv - 33 * sum);
    let spread = if n * sumsq - sum * sum < 0 {
        0
    } else {
        n * sumsq - sum * sum
    };
    lhs >= 0 && lhs * lhs >= 289 * ((sum * sum) * spread)
}

/// The value of pixel `(x, y)` after thresholding: 255 (light) where it is
/// at or above the threshold of its window, else 0 (dark).
pub open spec fn sauvola_level(img: GrayImage, x: int, y: int) -> u8 {
    let x0 = window_lo(x);
    let y0 = window_lo(y);
    let x1 = window_hi(x, img.width as int);
    let y1 = window_hi(y, img.height as int);
    if at_or_above_threshold(
        img.pixel(x, y) as int,
        (x1 - x0) * (y1 - y0),
        window_sum(img, plain(), x0, y0, x1, y1),
        window_sum(img, squared(), x0, y0, x1, y1),
    ) {
        255
    } else {
        0
    }
}

/// The pixels of the thresholded image, row by row.
pub open spec fn sauvola_pixels(img: GrayImage) -> Seq<u8> {
    Seq::new(
        (img.width * img.height) as nat,
        |k: int| sauvola_level(img, k % (img.width as int), k / (img.width as int)),
    )
}

/// `f` maps every pixel value into `0..=top`.
pub open spec fn bounded_by(f: spec_fn(u8) -> int, top: int) -> bool {
    forall|p: u8| 0 <= #[trigger] f(p) <= top
}

/// A pixel value lies in `0..=255` and its square in `0..=65025`.
proof fn lemma_value_bounds()
    ensures
        bounded_by(plain(), 255),
        bounded_by(squared(), 65025),
{
    assert forall|p: u8| 0 <= #[trigger] squared()(p) <= 65025 by {
        assert(0 <= p * p <= 65025) by (nonlinear_arith)
            requires
                0 <= p <= 255,
        ;
    }
}

proof fn lemma_row_sum_bounds(img: GrayImage, f: spec_fn(u8) -> int, top: int, y: int, x0: int, x1: int)
    requires
        bounded_by(f, top),
        x0 <= x1,
    ensures
        0 <= row_sum(img, f, y, x0, x1) <= top * (x1 - x0),
    decreases x1 - x0,
{
    if x1 > x0 {
        lemma_row_sum_bounds(img, f, top, y, x0, x1 - 1);
        assert(top * (x1 - 1 - x0) + top == top * (x1 - x0)) by (nonlinear_arith);
    } else {
        assert(top * (x1 - x0) == 0) by (nonlinear_arith)
            requires
                x1 == x0,
        ;
    }
}

/// A sum over a window lies between zero and the largest term times the
/// number of pixels.
proof fn lemma_window_sum_bounds(
    img: GrayImage,
    f: spec_fn(u8) -> int,
    top: int,
    x0: int,
    y0: int,
    x1: int,
    y1: int,
)
    requires
        bounded_by(f, top),
        x0 <= x1,
        y0 <= y1,
    ensures
        0 <= window_sum(img, f, x0, y0, x1, y1) <= top * ((x1 - x0) * (y1 - y0)),
    decreases y1 - y0,
{
    if y1 > y0 {
        lemma_window_sum_bounds(img, f, top, x0, y0, x1, y1 - 1);
        lemma_row_sum_bounds(img, f, top, y1 - 1, x0, x1);
        assert(top * ((x1 - x0) * (y1 - 1 - y0)) + top * (x1 - x0) == top * ((x1 - x0) * (y1
            - y0))) by (nonlinear_arith);
    } else {
        assert(top * ((x1 - x0) * (y1 - y0)) == 0) by (nonlinear_arith)
            requires
                y1 == y0,
        ;
    }
}

proof fn lemma_row_sum_split(img: GrayImage, f: spec_fn(u8) -> int, y: int, x0: int, x1: int)
    requires
        0 <= x0 <= x1,
    ensures
        row_sum(img, f, y, x0, x1) == row_sum(img, f, y, 0, x1) - row_sum(img, f, y, 0, x0),
    decreases x1 - x0,
{
    if x1 > x0 {
        lemma_row_sum_split(img, f, y, x0, x1 - 1);
    }
}

/// The sum over a window is a combination of four sums over rectangles
/// that start at the origin.
proof fn lemma_window_from_corners(
    img: GrayImage,
    f: spec_fn(u8) -> int,
    x0: int,
    y0: int,
    x1: int,
    y1: int,
)
    requires
        0 <= x0 <= x1,
        0 <= y0 <= y1,
    ensures
        window_sum(img, f, x0, y0, x1, y1) == window_sum(img, f, 0, 0, x1, y1) - window_sum(
            img,
            f,
            0,
            0,
            x0,
            y1,
        ) - window_sum(img, f, 0, 0, x1, y0) + window_sum(img, f, 0, 0, x0, y0),
    decreases y1 - y0,
{
    if y1 > y0 {
        lemma_window_from_corners(img, f, x0, y0, x1, y1 - 1);
        lemma_row_sum_split(img, f, y1 - 1, x0, x1);
    }
}

/// A summed-area table of `img` under `f`: entry `(x, y)` holds the sum of
/// `f` over the pixels above row `y` and left of column `x`.
pub open spec fn is_table(table: Seq<Vec<u64>>, img: GrayImage, f: spec_fn(u8) -> int, rows: int) -> bool {
    &&& table.len() == rows
    &&& forall|y: int| 0 <= y < rows ==> (#[trigger] table[y])@.len() == img.width + 1
    &&& forall|y: int, x: int|
        0 <= y < rows && 0 <= x <= img.width ==> (#[trigger] table[y]@[x]) == window_sum(
            img,
            f,
            0,
            0,
            x,
            y,
        )
}

/// A row of `len` zeros.
fn zeros(len: usize) -> (row: Vec<u64>)
    ensures
        row@.len() == len,
        forall|i: int| 0 <= i < len ==> row@[i] == 0,
{
    let mut row: Vec<u64> = Vec::new();
    while row.len() < len
        invariant
            row@.len() <= len,
            forall|i: int| 0 <= i < row@.len() ==> row@[i] == 0,
        decreases len - row@.len(),
    {
        row.push(0);
    }
    row
}

/// Builds the summed-area tables of the values and of their squares in one
/// pass over the image.
fn integral_tables(gray: &GrayImage) -> (tables: (Vec<Vec<u64>>, Vec<Vec<u64>>))
    requires
        gray.fits(),
    ensures
        is_table(tables.0@, *gray, plain(), gray.height + 1),
        is_table(tables.1@, *gray, squared(), gray.height + 1),
{
    let w = gray.width;
    let h = gray.height;
    let mut sums: Vec<Vec<u64>> = Vec::new();
    let mut squares: Vec<Vec<u64>> = Vec::new();
    sums.push(zeros(w as usize + 1));
    squares.push(zeros(w as usize + 1));
    proof {
        lemma_value_bounds();
    }
    let mut y: u32 = 0;
    while y < h
        invariant
            gray.fits(),
            w == gray.width,
            h == gray.height,
            y <= h,
            bounded_by(plain(), 255),
            bounded_by(squared(), 65025),
            is_table(sums@, *gray, plain(), y + 1),
            is_table(squares@, *gray, squared(), y + 1),
        decreases h - y,
    {
        let mut row: Vec<u64> = Vec::new();
        let mut row_sq: Vec<u64> = Vec::new();
        row.push(0);
        row_sq.push(0);
        let mut run: u64 = 0;
        let mut run_sq: u64 = 0;
        let mut x: u32 = 0;
        proof {
            lemma_window_sum_bounds(*gray, plain(), 255, 0, 0, 0, y + 1);
            lemma_window_sum_bounds(*gray, squared(), 65025, 0, 0, 0, y + 1);
        }
        while x < w
            invariant
                gray.fits(),
                w == gray.width,
                h == gray.height,
                y < h,
                x <= w,
                bounded_by(plain(), 255),
                bounded_by(squared(), 65025),
                is_table(sums@, *gray, plain(), y + 1),
                is_table(squares@, *gray, squared(), y + 1),
                row@.len() == x + 1,
                row_sq@.len() == x + 1,
                run == row_sum(*gray, plain(), y as int, 0, x as int),
                run_sq == row_sum(*gray, squared(), y as int, 0, x as int),
                forall|i: int|
                    0 <= i <= x ==> #[trigger] row@[i] == window_sum(
                        *gray,
                        plain(),
                        0,
                        0,
                        i,
                        y + 1,
                    ),
                forall|i: int|
                    0 <= i <= x ==> #[trigger] row_sq@[i] == window_sum(
                        *gray,
                        squared(),
                        0,
                        0,
                        i,
                        y + 1,
                    ),
            decreases w - x,
        {
            let v = gray.get(x, y) as u64;
            proof {
                lemma_row_sum_bounds(*gray, plain(), 255, y as int, 0, x + 1);
                lemma_row_sum_bounds(*gray, squared(), 65025, y as int, 0, x + 1);
                lemma_window_sum_bounds(*gray, plain(), 255, 0, 0, x + 1, y + 1);
                lemma_window_sum_bounds(*gray, squared(), 65025, 0, 0, x + 1, y + 1);
                assert((x + 1) * (y + 1) <= 46_341 * 46_341) by (nonlinear_arith)
                    requires
                        x + 1 <= 46_341,
                        y + 1 <= 46_341,
                ;
                assert(65025 * ((x + 1 - 0) * (y + 1 - 0)) <= 65025 * (46_341 * 46_341))
                    by (nonlinear_arith)
                    requires
                        (x + 1 - 0) * (y + 1 - 0) <= 46_341 * 46_341,
                ;
                assert(255 * ((x + 1 - 0) * (y + 1 - 0)) <= 255 * (46_341 * 46_341))
                    by (nonlinear_arith)
                    requires
                        (x + 1 - 0) * (y + 1 - 0) <= 46_341 * 46_341,
                ;
                assert(v * v <= 65025) by (nonlinear_arith)
                    requires
                        v <= 255,
                ;
                assert(squared()(gray.pixel(x as int, y as int)) == v * v);
                assert(plain()(gray.pixel(x as int, y as int)) == v);
            }
            run = run + v;
            run_sq = run_sq + v * v;
            let above = sums[y as usize][x as usize + 1];
            let above_sq = squares[y as usize][x as usize + 1];
            row.push(above + run);
            row_sq.push(above_sq + run_sq);
            x += 1;
        }
        let ghost old_sums = sums@;
        let ghost old_squares = squares@;
        sums.push(row);
        squares.push(row_sq);
        proof {
            assert forall|yy: int, xx: int| 0 <= yy < y + 2 && 0 <= xx <= w implies (
            #[trigger] sums@[yy]@[xx]) == window_sum(*gray, plain(), 0, 0, xx, yy) by {
                if yy < y + 1 {
                    assert(sums@[yy] == old_sums[yy]);
                }
            }
            assert forall|yy: int, xx: int| 0 <= yy < y + 2 && 0 <= xx <= w implies (
            #[trigger] squares@[yy]@[xx]) == window_sum(*gray, squared(), 0, 0, xx, yy) by {
                if yy < y + 1 {
                    assert(squares@[yy] == old_squares[yy]);
                }
            }
            assert forall|yy: int| 0 <= yy < y + 2 implies (#[trigger] sums@[yy])@.len() == w
                + 1 by {
                if yy < y + 1 {
                    assert(sums@[yy] == old_sums[yy]);
                }
            }
            assert forall|yy: int| 0 <= yy < y + 2 implies (#[trigger] squares@[yy])@.len() == w
                + 1 by {
                if yy < y + 1 {
                    assert(squares@[yy] == old_squares[yy]);
                }
            }
        }
        y += 1;
    }
    (sums, squares)
}

/// The sum over the window from `(x0, y0)` to `(x1, y1)`, read from a
/// summed-area table.
fn table_window(table: &Vec<Vec<u64>>, x0: usize, y0: usize, x1: usize, y1: usize) -> (sum: i128)
    requires
        y0 <= y1 < table@.len(),
        x0 <= x1,
        x1 < (#[trigger] table@[y0 as int])@.len(),
        x1 < (#[trigger] table@[y1 as int])@.len(),
    ensures
        sum == table@[y1 as int]@[x1 as int] - table@[y1 as int]@[x0 as int] - table@[y0 as int]@[x1 as int]
            + table@[y0 as int]@[x0 as int],
{
    let br = table[y1][x1] as i128;
    let bl = table[y1][x0] as i128;
    let tr = table[y0][x1] as i128;
    let tl = table[y0][x0] as i128;
    br - bl - tr + tl
}

/// Decides whether a pixel is at or above the threshold of its window.
pub fn passes_threshold(pv: u8, n: u32, sum: u32, sumsq: u32) -> (light: bool)
    requires
        0 < n <= SAUVOLA_WINDOW * SAUVOLA_WINDOW,
        sum <= 255 * n,
        sumsq <= 65025 * n,
    ensures
        light == at_or_above_threshold(pv as int, n as int, sum as int, sumsq as int),
{
    let n_: i128 = n as i128;
    let s: i128 = sum as i128;
    let q: i128 = sumsq as i128;
    let p: i128 = pv as i128;
    assert(0 <= n_ * p <= 625 * 255) by (nonlinear_arith)
        requires
            0 < n_ <= 625,
            0 <= p <= 255,
    ;
    let inner: i128 = 50 * (n_ * p) - 33 * s;
    assert(50 * (n_ * p) == 50 * n_ * p) by (nonlinear_arith);
    assert(-421_000_000_000 <= n_ * inner <= 5_000_000_000) by (nonlinear_arith)
        requires
            0 < n_ <= 625,
            -5_300_000 <= inner <= 8_000_000,
    ;
    let lhs: i128 = 128 * (n_ * inner);
    assert(128 * (n_ * inner) == 128 * n_ * inner) by (nonlinear_arith);
    assert(0 <= n_ * q <= 26_000_000_000) by (nonlinear_arith)
        requires
            0 < n_ <= 625,
            0 <= q <= 40_700_000,
    ;
    assert(0 <= s * s <= 25_500_000_000) by (nonlinear_arith)
        requires
            0 <= s <= 159_375,
    ;
    let square: i128 = s * s;
    let raw: i128 = n_ * q - square;
    let spread: i128 = if raw < 0 {
        0
    } else {
        raw
    };
    if lhs < 0 {
        return false;
    }
    assert(0 <= lhs * lhs <= 640_000_000_000 * 640_000_000_000) by (nonlinear_arith)
        requires
            0 <= lhs <= 640_000_000_000,
    ;
    assert(0 <= square * spread <= 25_500_000_000 * 26_000_000_000) by (nonlinear_arith)
        requires
            0 <= square <= 25_500_000_000,
            0 <= spread <= 26_000_000_000,
    ;
    lhs * lhs >= 289 * (square * spread)
}

/// The value of pixel `(x, y)` after thresholding, from the two tables.
fn threshold_pixel(
    gray: &GrayImage,
    sums: &Vec<Vec<u64>>,
    squares: &Vec<Vec<u64>>,
    x: u32,
    y: u32,
) -> (v: u8)
    requires
        gray.fits(),
        x < gray.width,
        y < gray.height,
        is_table(sums@, *gray, plain(), gray.height + 1),
        is_table(squares@, *gray, squared(), gray.height + 1),
    ensures
        v == sauvola_level(*gray, x as int, y as int),
{
    let w = gray.width;
    let h = gray.height;
    let half: u32 = SAUVOLA_WINDOW / 2;
    proof {
        lemma_value_bounds();
    }
    let x0: u32 = if x < half {
        0
    } else {
        x - half
    };
    let y0: u32 = if y < half {
        0
    } else {
        y - half
    };
    let x1: u32 = if x + half + 1 > w {
        w
    } else {
        x + half + 1
    };
    let y1: u32 = if y + half + 1 > h {
        h
    } else {
        y + half + 1
    };
    assert(0 < (x1 - x0) * (y1 - y0) <= 25 * 25) by (nonlinear_arith)
        requires
            0 < x1 - x0 <= 25,
            0 < y1 - y0 <= 25,
    ;
    let count: u32 = (x1 - x0) * (y1 - y0);
    proof {
        lemma_window_from_corners(
            *gray,
            plain(),
            x0 as int,
            y0 as int,
            x1 as int,
            y1 as int,
        );
        lemma_window_from_corners(
            *gray,
            squared(),
            x0 as int,
            y0 as int,
            x1 as int,
            y1 as int,
        );
        lemma_window_sum_bounds(
            *gray,
            plain(),
            255,
            x0 as int,
            y0 as int,
            x1 as int,
            y1 as int,
        );
        lemma_window_sum_bounds(
            *gray,
            squared(),
            65025,
            x0 as int,
            y0 as int,
            x1 as int,
            y1 as int,
        );
    }
    let sum = table_window(&sums, x0 as usize, y0 as usize, x1 as usize, y1 as usize);
    let sumsq = table_window(&squares, x0 as usize, y0 as usize, x1 as usize, y1 as usize);
    let pv = gray.get(x, y);
    let light = passes_threshold(pv, count, sum as u32, sumsq as u32);
    if light {
        255
    } else {
        0
    }
}

/// Sauvola's adaptive threshold: a pixel becomes 255 where it is at or
/// above the threshold of the window around it, else 0. The window has a
/// diameter of `SAUVOLA_WINDOW` pixels and is cut off at the sides of the
/// image.
pub fn sauvola_threshold(gray: &GrayImage) -> (out: GrayImage)
    requires
        gray.fits(),
    ensures
        out.wf(),
        out.width == gray.width,
        out.height == gray.height,
        out.data@ == sauvola_pixels(*gray),
        forall|k: int| 0 <= k < out.data@.len() ==> out.data@[k] == 0 || out.data@[k] == 255,
{
    let w = gray.width;
    let h = gray.height;
    let (sums, squares) = integral_tables(gray);
    let ghost want = sauvola_pixels(*gray);
    let mut data: Vec<u8> = Vec::new();
    let mut y: u32 = 0;
    assert(y * w == 0) by (nonlinear_arith)
        requires
            y == 0,
    ;
    while y < h
        invariant
            gray.fits(),
            w == gray.width,
            h == gray.height,
            y <= h,
            is_table(sums@, *gray, plain(), h + 1),
            is_table(squares@, *gray, squared(), h + 1),
            want == sauvola_pixels(*gray),
            data@.len() == y * w,
            forall|k: int| 0 <= k < data@.len() ==> data@[k] == want[k],
        decreases h - y,
    {
        let mut x: u32 = 0;
        while x < w
            invariant
                gray.fits(),
                w == gray.width,
                h == gray.height,
                    y < h,
                x <= w,
                is_table(sums@, *gray, plain(), h + 1),
                is_table(squares@, *gray, squared(), h + 1),
                want == sauvola_pixels(*gray),
                data@.len() == y * w + x,
                forall|k: int| 0 <= k < data@.len() ==> data@[k] == want[k],
            decreases w - x,
        {
            let v = threshold_pixel(gray, &sums, &squares, x, y);
            proof {
                let k = y * w + x;
                lemma_fundamental_div_mod_converse(k, w as int, y as int, x as int);
                lemma_pixel_index(x as int, y as int, w as int, h as int);
                assert(want[k] == v);
            }
            data.push(v);
            x += 1;
        }
        y += 1;
        assert(y * w == (y - 1) * w + w) by (nonlinear_arith);
    }
    assert(h * w == w * h) by (nonlinear_arith);
    assert(data@ =~= want);
    GrayImage { width: w, height: h, data }
}

} // verus!
