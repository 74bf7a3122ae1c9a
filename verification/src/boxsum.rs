//! Sums of one colour channel over rectangles of an RGBA8 image: the
//! arithmetic behind the box-averaging of thumbnails and previews.

use vstd::prelude::*;
use vstd::arithmetic::div_mod::lemma_fundamental_div_mod_converse;

verus! {

/// Sum of channel `c` over the pixels `x0 <= x < x1` of row `y` of an RGBA8
/// image `w` pixels wide.
pub open spec fn row_sum(img: Seq<u8>, w: int, c: int, y: int, x0: int, x1: int) -> int
    decreases x1 - x0,
{
    if x1 <= x0 {
        0
    } else {
        row_sum(img, w, c, y, x0, x1 - 1) + img[(y * w + x1 - 1) * 4 + c] as int
    }
}

/// Sum of channel `c` over the rectangle `[x0, x1) × [y0, y1)`.
pub open spec fn box_sum(img: Seq<u8>, w: int, c: int, x0: int, x1: int, y0: int, y1: int) -> int
    decreases y1 - y0,
{
    if y1 <= y0 {
        0
    } else {
        box_sum(img, w, c, x0, x1, y0, y1 - 1) + row_sum(img, w, c, y1 - 1, x0, x1)
    }
}

/// Number of pixels in the rectangle `[x0, x1) × [y0, y1)`.
pub open spec fn box_count(x0: int, x1: int, y0: int, y1: int) -> int {
    if x1 <= x0 || y1 <= y0 {
        0
    } else {
        (x1 - x0) * (y1 - y0)
    }
}

/// The rounded-down average of channel `c` over a rectangle; an empty
/// rectangle averages to 0.
pub open spec fn box_average(img: Seq<u8>, w: int, c: int, x0: int, x1: int, y0: int, y1: int) -> int {
    let n = box_count(x0, x1, y0, y1);
    box_sum(img, w, c, x0, x1, y0, y1) / if n > 0 { n } else { 1 }
}

proof fn lemma_row_sum_bounds(img: Seq<u8>, w: int, c: int, y: int, x0: int, x1: int)
    ensures
        0 <= row_sum(img, w, c, y, x0, x1),
        x0 <= x1 ==> row_sum(img, w, c, y, x0, x1) <= 255 * (x1 - x0),
        x1 <= x0 ==> row_sum(img, w, c, y, x0, x1) == 0,
    decreases x1 - x0,
{
    if x1 > x0 {
        lemma_row_sum_bounds(img, w, c, y, x0, x1 - 1);
    }
}

pub proof fn lemma_box_sum_bounds(img: Seq<u8>, w: int, c: int, x0: int, x1: int, y0: int, y1: int)
    ensures
        0 <= box_sum(img, w, c, x0, x1, y0, y1) <= 255 * box_count(x0, x1, y0, y1),
    decreases y1 - y0,
{
    if y1 > y0 {
        lemma_box_sum_bounds(img, w, c, x0, x1, y0, y1 - 1);
        lemma_row_sum_bounds(img, w, c, y1 - 1, x0, x1);
        if x1 > x0 {
            assert(255 * box_count(x0, x1, y0, y1 - 1) + 255 * (x1 - x0) == 255 * box_count(x0, x1, y0, y1)) by (nonlinear_arith)
                requires x1 > x0, y1 > y0,
                    box_count(x0, x1, y0, y1 - 1) == if y1 - 1 <= y0 { 0 } else { (x1 - x0) * (y1 - 1 - y0) },
                    box_count(x0, x1, y0, y1) == (x1 - x0) * (y1 - y0);
        }
    }
}

/// The average of a rectangle fits a byte.
pub proof fn lemma_box_average_bounds(img: Seq<u8>, w: int, c: int, x0: int, x1: int, y0: int, y1: int)
    ensures
        0 <= box_average(img, w, c, x0, x1, y0, y1) <= 255,
{
    lemma_box_sum_bounds(img, w, c, x0, x1, y0, y1);
    let n = box_count(x0, x1, y0, y1);
    let s = box_sum(img, w, c, x0, x1, y0, y1);
    if n > 0 {
        assert(0 <= s / n <= 255) by (nonlinear_arith)
            requires 0 <= s <= 255 * n, n > 0;
    }
}

/// Sum of channel `c` over the rectangle `[x0, x1) × [y0, y1)` of an RGBA8
/// image `w` pixels wide.
pub fn channel_box_sum(img: &[u8], w: u32, c: usize, x0: u32, x1: u32, y0: u32, y1: u32) -> (sum: u64)
    requires
        c < 4,
        x0 <= x1 <= w,
        y0 <= y1,
        y1 * w * 4 <= img@.len(),
        y1 * w * 4 <= u32::MAX,
    ensures
        sum == box_sum(img@, w as int, c as int, x0 as int, x1 as int, y0 as int, y1 as int),
{
    let mut acc: u64 = 0;
    let mut sy = y0;
    while sy < y1
        invariant
            c < 4,
            x0 <= x1 <= w,
            y0 <= sy <= y1,
            y1 * w * 4 <= img@.len(),
            y1 * w * 4 <= u32::MAX,
            acc == box_sum(img@, w as int, c as int, x0 as int, x1 as int, y0 as int, sy as int),
        decreases y1 - sy,
    {
        proof {
            lemma_box_sum_bounds(img@, w as int, c as int, x0 as int, x1 as int, y0 as int, sy as int);
            assert(box_count(x0 as int, x1 as int, y0 as int, sy as int) <= w * y1) by (nonlinear_arith)
                requires x0 <= x1 <= w, y0 <= sy <= y1,
                    box_count(x0 as int, x1 as int, y0 as int, sy as int) == if x1 <= x0 || sy <= y0 { 0 } else { (x1 - x0) * (sy - y0) };
        }
        let mut sx = x0;
        let ghost row_start = acc as int;
        while sx < x1
            invariant
                c < 4,
                x0 <= sx <= x1 <= w,
                y0 <= sy < y1,
                y1 * w * 4 <= img@.len(),
                y1 * w * 4 <= u32::MAX,
                row_start == box_sum(img@, w as int, c as int, x0 as int, x1 as int, y0 as int, sy as int),
                row_start <= 255 * (w * y1),
                acc == row_start + row_sum(img@, w as int, c as int, sy as int, x0 as int, sx as int),
            decreases x1 - sx,
        {
            proof {
                lemma_row_sum_bounds(img@, w as int, c as int, sy as int, x0 as int, sx as int);
                assert((sy * w + sx) * 4 + c < y1 * w * 4) by (nonlinear_arith)
                    requires sy < y1, sx < w, c < 4;
                assert(w * y1 <= u32::MAX) by (nonlinear_arith)
                    requires y1 * w * 4 <= u32::MAX;
            }
            let off = ((sy * w + sx) * 4) as usize + c;
            acc = acc + img[off] as u64;
            sx = sx + 1;
        }
        sy = sy + 1;
    }
    acc
}


/// Index arithmetic of row-major layouts: `q * b + r` splits back into
/// `q` and `r`, and stays below `n * b`.
pub proof fn lemma_row_major(q: int, r: int, b: int, n: int)
    requires
        b > 0,
        0 <= r < b,
        0 <= q < n,
    ensures
        (q * b + r) / b == q,
        (q * b + r) % b == r,
        0 <= q * b + r < n * b,
{
    lemma_fundamental_div_mod_converse(q * b + r, b, q, r);
    assert(0 <= q * b + r < n * b) by (nonlinear_arith)
        requires b > 0, 0 <= r < b, 0 <= q < n;
}

} // verus!
