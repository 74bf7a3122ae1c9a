//! The preview: every visible layer, bottom first, decoded, transformed,
//! box-averaged down to preview size, tiled over the canvas and laid over
//! it with premultiplied source-over; then back to straight alpha and out
//! as a PNG data URL.

use vstd::prelude::*;
use vstd::arithmetic::div_mod::lemma_fundamental_div_mod_converse;
use crate::model::{LayerState, PngCompression, PreviewImage, Snapshot};
use crate::boxsum::{box_average, box_sum, row_sum, channel_box_sum, lemma_box_sum_bounds, lemma_box_average_bounds,
    box_count, lemma_row_major};
use crate::composite::{blend8, unpremul8, blend_premul8, unpremultiply8, transform_into,
    transformed, rotated_dims, inferred_bpp, visible_layers, visible_bottom_up, output_size,
    output_size_of};
use crate::decode::{SampleDepth, depth_bytes, lemma_rgba8_pixels_of_rgba8, png_encoding_error, larger, shrink_factor, law_shrink_within_limit, at_most, decoded_rgba8, load_error,
    rgba8_supported, load_png_rgba8, png_encoding_at, base64_standard, rgba8_to_data_url,
    png_encode_rgba_at};

verus! {

/// Box-averaged reduction of an RGBA8 image from `w`×`h` to `nw`×`nh`:
/// target pixel `(dx, dy)` averages the source rectangle from
/// `(dx * w / nw, dy * h / nh)` up to `((dx + 1) * w / nw, (dy + 1) * h / nh)`.
pub open spec fn downsampled(src: Seq<u8>, w: u32, h: u32, nw: u32, nh: u32) -> Seq<u8> {
    Seq::new((nw * nh * 4) as nat, |i: int| {
        let p = i / 4;
        let dx = p % (nw as int);
        let dy = p / (nw as int);
        box_average(
            src,
            w as int,
            i % 4,
            dx * w / (nw as int),
            at_most((dx + 1) * w / (nw as int), w as int),
            dy * h / (nh as int),
            at_most((dy + 1) * h / (nh as int), h as int),
        ) as u8
    })
}

/// Reducing an image to its own size leaves it unchanged: every box is the
/// one pixel it stands for.
pub proof fn law_downsample_same_size_is_identity(src: Seq<u8>, w: u32, h: u32)
    requires
        w > 0,
        h > 0,
        src.len() == w * h * 4,
    ensures
        downsampled(src, w, h, w, h) == src,
{
    let t = downsampled(src, w, h, w, h);
    assert(t.len() == src.len());
    assert forall|i: int| 0 <= i < src.len() implies #[trigger] t[i] == src[i] by {
        let (wi, hi) = (w as int, h as int);
        let p = i / 4;
        let c = i % 4;
        let dx = p % wi;
        let dy = p / wi;
        assert(i == 4 * p + c && 0 <= c < 4);
        assert(0 <= p < wi * hi) by (nonlinear_arith)
            requires 0 <= i < wi * hi * 4, p == i / 4;
        assert(p == dy * wi + dx && 0 <= dx < wi) by (nonlinear_arith)
            requires wi > 0, p >= 0, dx == p % wi, dy == p / wi;
        assert(dy >= 0) by (nonlinear_arith)
            requires p >= 0, wi > 0, dy == p / wi;
        assert(dy < hi) by (nonlinear_arith)
            requires p == dy * wi + dx, 0 <= dx, p < wi * hi, dy >= 0, wi > 0;
        lemma_fundamental_div_mod_converse(dx * wi, wi, dx, 0);
        lemma_fundamental_div_mod_converse((dx + 1) * wi, wi, dx + 1, 0);
        lemma_fundamental_div_mod_converse(dy * hi, hi, dy, 0);
        lemma_fundamental_div_mod_converse((dy + 1) * hi, hi, dy + 1, 0);
        assert(at_most((dx + 1) * wi / wi, wi) == dx + 1);
        assert(at_most((dy + 1) * hi / hi, hi) == dy + 1);
        let v = src[(dy * wi + dx) * 4 + c] as int;
        assert(row_sum(src, wi, c, dy, dx, dx) == 0);
        assert(row_sum(src, wi, c, dy, dx, dx + 1) == v);
        assert(box_sum(src, wi, c, dx, dx + 1, dy, dy) == 0);
        assert(box_sum(src, wi, c, dx, dx + 1, dy, dy + 1) == v);
        assert((dx + 1 - dx) * (dy + 1 - dy) == 1) by (nonlinear_arith);
        assert(box_count(dx, dx + 1, dy, dy + 1) == 1);
        assert(v / 1 == v);
        assert(box_average(src, wi, c, dx, dx + 1, dy, dy + 1) == v);
        assert((dy * wi + dx) * 4 + c == i);
    }
    assert(t =~= src);
}

/// Box averaging, cell by cell: reduced pixel `(dx, dy)`, channel `c`, is
/// the rounded-down average of channel `c` over every source pixel of its
/// box, columns `dx * w / nw` up to `(dx + 1) * w / nw` and rows
/// `dy * h / nh` up to `(dy + 1) * h / nh`. When the image shrinks the box
/// is never empty, and the boxes tile the source: the first starts at 0,
/// each ends where the next begins, and the last ends at the edge.
pub proof fn law_downsample_averages_boxes(src: Seq<u8>, w: u32, h: u32, nw: u32, nh: u32, dx: int, dy: int, c: int)
    requires
        0 < nw <= w,
        0 < nh <= h,
        0 <= dx < nw,
        0 <= dy < nh,
        0 <= c < 4,
    ensures
        ({
            let (wi, hi, nwi, nhi) = (w as int, h as int, nw as int, nh as int);
            let x0 = dx * wi / nwi;
            let x1 = (dx + 1) * wi / nwi;
            let y0 = dy * hi / nhi;
            let y1 = (dy + 1) * hi / nhi;
            &&& 0 <= x0 < x1 <= wi
            &&& 0 <= y0 < y1 <= hi
            &&& (dx == 0 ==> x0 == 0) && (dx == nwi - 1 ==> x1 == wi)
            &&& (dy == 0 ==> y0 == 0) && (dy == nhi - 1 ==> y1 == hi)
            &&& downsampled(src, w, h, nw, nh)[(dy * nwi + dx) * 4 + c] as int
                == box_sum(src, wi, c, x0, x1, y0, y1) / ((x1 - x0) * (y1 - y0))
        }),
{
    let (wi, hi, nwi, nhi) = (w as int, h as int, nw as int, nh as int);
    let x0 = dx * wi / nwi;
    let x1 = (dx + 1) * wi / nwi;
    let y0 = dy * hi / nhi;
    let y1 = (dy + 1) * hi / nhi;
    lemma_cell_bounds(dx, nwi, wi);
    lemma_cell_bounds(dy, nhi, hi);
    assert(x0 < x1) by (nonlinear_arith)
        requires nwi > 0, wi >= nwi, x0 == dx * wi / nwi, x1 == (dx + 1) * wi / nwi, dx >= 0;
    assert(y0 < y1) by (nonlinear_arith)
        requires nhi > 0, hi >= nhi, y0 == dy * hi / nhi, y1 == (dy + 1) * hi / nhi, dy >= 0;
    assert(x1 <= wi) by (nonlinear_arith)
        requires nwi > 0, wi >= 0, x1 == (dx + 1) * wi / nwi, dx + 1 <= nwi;
    assert(y1 <= hi) by (nonlinear_arith)
        requires nhi > 0, hi >= 0, y1 == (dy + 1) * hi / nhi, dy + 1 <= nhi;
    if dx == nwi - 1 {
        lemma_fundamental_div_mod_converse(nwi * wi, nwi, wi, 0);
        assert((dx + 1) * wi == nwi * wi);
    }
    if dy == nhi - 1 {
        lemma_fundamental_div_mod_converse(nhi * hi, nhi, hi, 0);
        assert((dy + 1) * hi == nhi * hi);
    }
    let p = dy * nwi + dx;
    assert(0 <= p < nwi * nhi) by (nonlinear_arith)
        requires p == dy * nwi + dx, 0 <= dx < nwi, 0 <= dy < nhi;
    lemma_row_major(p, c, 4, nwi * nhi);
    lemma_row_major(dy, dx, nwi, nhi);
    assert((x1 - x0) * (y1 - y0) > 0) by (nonlinear_arith)
        requires x1 - x0 > 0, y1 - y0 > 0;
    assert(box_count(x0, x1, y0, y1) == (x1 - x0) * (y1 - y0));
    assert(at_most(x1, wi) == x1 && at_most(y1, hi) == y1);
    assert(downsampled(src, w, h, nw, nh).len() == nwi * nhi * 4);
    lemma_box_average_bounds(src, wi, c, x0, x1, y0, y1);
}

proof fn lemma_cell_bounds(d: int, n: int, w: int)
    requires
        0 <= d < n,
        w >= 0,
    ensures
        0 <= d * w / n <= at_most((d + 1) * w / n, w) <= w,
        d * w <= (d + 1) * w <= n * w,
{
    assert(0 <= d * w / n <= (d + 1) * w / n) by (nonlinear_arith)
        requires 0 <= d < n, w >= 0;
    assert(d * w / n <= w) by (nonlinear_arith)
        requires 0 <= d < n, w >= 0;
    assert(d * w <= (d + 1) * w <= n * w) by (nonlinear_arith)
        requires 0 <= d < n, w >= 0;
}

/// Box-averaged reduction (see `downsampled`).
fn downsample(src: &[u8], w: u32, h: u32, nw: u32, nh: u32) -> (out: Vec<u8>)
    requires
        src@.len() >= w * h * 4,
        w * h * 4 <= u32::MAX,
        nw * nh * 4 <= u32::MAX,
        nw > 0 && nh > 0 ==> nh * h <= u32::MAX && nw * w <= u32::MAX,
    ensures
        out@ == downsampled(src@, w, h, nw, nh),
        nw == w && nh == h && w > 0 && h > 0 && src@.len() == w * h * 4 ==> out@ == src@,
{
    let ghost target = downsampled(src@, w, h, nw, nh);
    let mut out: Vec<u8> = Vec::new();
    let mut dy: u32 = 0;
    while dy < nh
        invariant
            src@.len() >= w * h * 4,
            w * h * 4 <= u32::MAX,
            nw * nh * 4 <= u32::MAX,
            nw > 0 && nh > 0 ==> nh * h <= u32::MAX && nw * w <= u32::MAX,
            target == downsampled(src@, w, h, nw, nh),
            dy <= nh,
            out@.len() == dy * nw * 4,
            forall|j: int| 0 <= j < out@.len() ==> #[trigger] out@[j] == target[j],
        decreases nh - dy,
    {
        let mut dx: u32 = 0;
        while dx < nw
            invariant
                src@.len() >= w * h * 4,
                w * h * 4 <= u32::MAX,
                nw * nh * 4 <= u32::MAX,
                nw > 0 && nh > 0 ==> nh * h <= u32::MAX && nw * w <= u32::MAX,
                target == downsampled(src@, w, h, nw, nh),
                dy < nh,
                dx <= nw,
                out@.len() == (dy * nw + dx) * 4,
                forall|j: int| 0 <= j < out@.len() ==> #[trigger] out@[j] == target[j],
            decreases nw - dx,
        {
            proof {
                lemma_cell_bounds(dy as int, nh as int, h as int);
                lemma_cell_bounds(dx as int, nw as int, w as int);
            }
            let y0 = dy * h / nh;
            let y1a = (dy + 1) * h / nh;
            let y1 = if y1a < h { y1a } else { h };
            let x0 = dx * w / nw;
            let x1a = (dx + 1) * w / nw;
            let x1 = if x1a < w { x1a } else { w };
            proof {
                assert(y1 * w * 4 <= w * h * 4) by (nonlinear_arith)
                    requires y1 <= h;
                assert(0 <= (x1 - x0) * (y1 - y0) <= w * h) by (nonlinear_arith)
                    requires x0 <= x1 <= w, y0 <= y1 <= h;
            }
            let ghost p = (dy * nw + dx) as int;
            let mut c: usize = 0;
            while c < 4
                invariant
                    src@.len() >= w * h * 4,
                    w * h * 4 <= u32::MAX,
                    target == downsampled(src@, w, h, nw, nh),
                    dy < nh,
                    dx < nw,
                    p == dy * nw + dx,
                    x0 == dx * w / (nw as int),
                    y0 == dy * h / (nh as int),
                    x1 == at_most((dx + 1) * w / (nw as int), w as int),
                    y1 == at_most((dy + 1) * h / (nh as int), h as int),
                    x0 <= x1 <= w,
                    y0 <= y1 <= h,
                    y1 * w * 4 <= src@.len(),
                    y1 * w * 4 <= w * h * 4,
                    (x1 - x0) * (y1 - y0) <= w * h,
                    c <= 4,
                    out@.len() == p * 4 + c,
                    forall|j: int| 0 <= j < out@.len() ==> #[trigger] out@[j] == target[j],
                decreases 4 - c,
            {
                let sum = channel_box_sum(src, w, c, x0, x1, y0, y1);
                proof {
                    assert(p < nw * nh) by (nonlinear_arith)
                        requires p == dy * nw + dx, dy < nh, dx < nw;
                    lemma_row_major(p, c as int, 4, (nw * nh) as int);
                    lemma_row_major(dy as int, dx as int, nw as int, nh as int);
                    lemma_box_sum_bounds(src@, w as int, c as int, x0 as int, x1 as int, y0 as int, y1 as int);
                    lemma_box_average_bounds(src@, w as int, c as int, x0 as int, x1 as int, y0 as int, y1 as int);
                    if x1 <= x0 || y1 <= y0 {
                        assert((x1 - x0) * (y1 - y0) == 0) by (nonlinear_arith)
                            requires x0 <= x1, y0 <= y1, x1 <= x0 || y1 <= y0;
                    }
                }
                let cnt = ((x1 - x0) as u64) * ((y1 - y0) as u64);
                let cnt = if cnt > 1 { cnt } else { 1 };
                out.push((sum / cnt) as u8);
                c = c + 1;
            }
            proof {
                assert((dy * nw + dx + 1) * 4 == (dy * nw + dx) * 4 + 4) by (nonlinear_arith);
            }
            dx = dx + 1;
        }
        proof {
            assert((dy * nw + nw) * 4 == (dy + 1) * nw * 4) by (nonlinear_arith);
        }
        dy = dy + 1;
    }
    proof {
        assert(out@.len() == nw * nh * 4) by (nonlinear_arith)
            requires out@.len() == dy * nw * 4, dy == nh;
        assert(out@ =~= target);
        if nw == w && nh == h && w > 0 && h > 0 && src@.len() == w * h * 4 {
            law_downsample_same_size_is_identity(src@, w, h);
        }
    }
    out
}


/// The four bytes of pixel `p` of an RGBA8 buffer.
pub open spec fn pixel_at(img: Seq<u8>, p: int) -> Seq<u8> {
    img.subrange(4 * p, 4 * p + 4)
}

/// The canvas `acc` (`pv_w` pixels wide) after the `lw`×`lh` image `small`
/// is repeated across it and each of its pixels is laid over the canvas
/// pixel beneath with premultiplied source-over.
pub open spec fn tiled_over(acc: Seq<u8>, pv_w: int, small: Seq<u8>, lw: int, lh: int) -> Seq<u8> {
    Seq::new(acc.len(), |i: int| {
        let p = i / 4;
        blend8(pixel_at(acc, p), pixel_at(small, tile_source(p, pv_w, lw, lh)))[i % 4]
    })
}

/// A premultiplied RGBA8 buffer turned back into straight alpha, pixel by pixel.
pub open spec fn straightened(acc: Seq<u8>) -> Seq<u8> {
    Seq::new(acc.len(), |i: int| unpremul8(pixel_at(acc, i / 4))[i % 4])
}

fn read_px(v: &Vec<u8>, off: usize) -> (px: [u8; 4])
    requires
        off + 4 <= v@.len(),
    ensures
        px@ == v@.subrange(off as int, off + 4),
{
    let n = v.len();
    assert(off + 4 <= n);
    let px = [v[off], v[off + 1], v[off + 2], v[off + 3]];
    assert(px@ =~= v@.subrange(off as int, off + 4));
    px
}

fn read_slice_px(v: &[u8], off: usize) -> (px: [u8; 4])
    requires
        off + 4 <= v@.len(),
    ensures
        px@ == v@.subrange(off as int, off + 4),
{
    let n = v.len();
    assert(off + 4 <= n);
    let px = [v[off], v[off + 1], v[off + 2], v[off + 3]];
    assert(px@ =~= v@.subrange(off as int, off + 4));
    px
}

fn write_px(v: &mut Vec<u8>, off: usize, px: [u8; 4])
    requires
        off + 4 <= old(v)@.len(),
    ensures
        final(v)@.len() == old(v)@.len(),
        forall|i: int| 0 <= i < old(v)@.len() ==> #[trigger] final(v)@[i] == if off <= i < off + 4 {
            px@[i - off]
        } else {
            old(v)@[i]
        },
{
    let n = v.len();
    assert(off + 4 <= n);
    v.set(off, px[0]);
    v.set(off + 1, px[1]);
    v.set(off + 2, px[2]);
    v.set(off + 3, px[3]);
}

/// Repeats `small` across the canvas and lays each of its pixels over the
/// canvas pixel beneath (see `tiled_over`).
fn tile_over(acc: &mut Vec<u8>, pv_w: u32, pv_h: u32, small: &[u8], lw: u32, lh: u32)
    requires
        old(acc)@.len() == pv_w * pv_h * 4,
        pv_w * pv_h * 4 <= u32::MAX,
        small@.len() == lw * lh * 4,
        lw * lh * 4 <= u32::MAX,
        pv_w > 0 && pv_h > 0 ==> lw > 0 && lh > 0,
    ensures
        final(acc)@ == tiled_over(old(acc)@, pv_w as int, small@, lw as int, lh as int),
{
    let ghost old_acc = acc@;
    let ghost target = tiled_over(old_acc, pv_w as int, small@, lw as int, lh as int);
    let mut py: u32 = 0;
    while py < pv_h
        invariant
            acc@.len() == pv_w * pv_h * 4,
            old_acc.len() == pv_w * pv_h * 4,
            pv_w * pv_h * 4 <= u32::MAX,
            small@.len() == lw * lh * 4,
            lw * lh * 4 <= u32::MAX,
            pv_w > 0 && pv_h > 0 ==> lw > 0 && lh > 0,
            target == tiled_over(old_acc, pv_w as int, small@, lw as int, lh as int),
            py <= pv_h,
            forall|i: int| 0 <= i < acc@.len() ==> #[trigger] acc@[i] == if i / 4 < py * pv_w { target[i] } else { old_acc[i] },
        decreases pv_h - py,
    {
        let mut px: u32 = 0;
        while px < pv_w
            invariant
                acc@.len() == pv_w * pv_h * 4,
                old_acc.len() == pv_w * pv_h * 4,
                pv_w * pv_h * 4 <= u32::MAX,
                small@.len() == lw * lh * 4,
                lw * lh * 4 <= u32::MAX,
                lw > 0 || px >= pv_w,
                lh > 0 || px >= pv_w,
                target == tiled_over(old_acc, pv_w as int, small@, lw as int, lh as int),
                py < pv_h,
                px <= pv_w,
                forall|i: int| 0 <= i < acc@.len() ==> #[trigger] acc@[i] == if i / 4 < py * pv_w + px { target[i] } else { old_acc[i] },
            decreases pv_w - px,
        {
            let sx = px % lw;
            let sy = py % lh;
            let ghost q = (py * pv_w + px) as int;
            let ghost sp = (sy * lw + sx) as int;
            proof {
                assert(sp < lw * lh) by (nonlinear_arith)
                    requires sp == sy * lw + sx, sy < lh, sx < lw;
                assert(q < pv_w * pv_h) by (nonlinear_arith)
                    requires q == py * pv_w + px, py < pv_h, px < pv_w;
                lemma_row_major(py as int, px as int, pv_w as int, pv_h as int);
            }
            let s_off = ((sy * lw + sx) * 4) as usize;
            let d_off = ((py * pv_w + px) * 4) as usize;
            let src = read_slice_px(small, s_off);
            let mut dst = read_px(acc, d_off);
            proof {
                assert(dst@ =~= pixel_at(old_acc, q)) by {
                    assert forall|k: int| 0 <= k < 4 implies dst@[k] == old_acc[4 * q + k] by {
                        lemma_row_major(q, k, 4, (pv_w * pv_h) as int);
                        assert(acc@[4 * q + k] == old_acc[4 * q + k]);
                    }
                }
            }
            blend_premul8(&mut dst, src);
            let ghost before = acc@;
            write_px(acc, d_off, dst);
            proof {
                assert forall|i: int| 0 <= i < acc@.len() implies #[trigger] acc@[i] == if i / 4 < q + 1 { target[i] } else { old_acc[i] } by {
                    lemma_row_major(i / 4, i % 4, 4, (pv_w * pv_h) as int);
                    assert(0 <= i / 4 < pv_w * pv_h) by (nonlinear_arith)
                        requires 0 <= i < pv_w * pv_h * 4;
                    assert(i == (i / 4) * 4 + i % 4);
                    if d_off <= i < d_off + 4 {
                        assert(i / 4 == q);
                        let k = i % 4;
                        assert(i - d_off == k);
                        assert(tile_source(q, pv_w as int, lw as int, lh as int) == sp);
                    } else {
                        assert(i / 4 != q);
                    }
                }
                assert(py * pv_w + (px + 1) == q + 1);
            }
            px = px + 1;
        }
        proof {
            assert(py * pv_w + pv_w == (py + 1) * pv_w) by (nonlinear_arith);
        }
        py = py + 1;
    }
    proof {
        assert forall|i: int| 0 <= i < acc@.len() implies #[trigger] acc@[i] == target[i] by {
            assert(i / 4 < py * pv_w) by (nonlinear_arith)
                requires 0 <= i < pv_w * pv_h * 4, py == pv_h;
        }
        assert(acc@ =~= target);
    }
}

/// The pixel of an `lw`×`lh` tile that covers canvas pixel `q` of a canvas
/// `pv_w` pixels wide.
pub open spec fn tile_source(q: int, pv_w: int, lw: int, lh: int) -> int {
    ((q / pv_w) % lh) * lw + (q % pv_w) % lw
}


/// Turns a premultiplied RGBA8 buffer back into straight alpha.
fn straighten(acc: &mut Vec<u8>)
    requires
        old(acc)@.len() % 4 == 0,
    ensures
        final(acc)@ == straightened(old(acc)@),
{
    let ghost old_acc = acc@;
    let ghost target = straightened(old_acc);
    let len = acc.len();
    let n = len / 4;
    let mut p: usize = 0;
    while p < n
        invariant
            acc@.len() == old_acc.len(),
            len == old_acc.len(),
            old_acc.len() % 4 == 0,
            n == old_acc.len() / 4,
            target == straightened(old_acc),
            p <= n,
            forall|i: int| 0 <= i < acc@.len() ==> #[trigger] acc@[i] == if i / 4 < p { target[i] } else { old_acc[i] },
        decreases n - p,
    {
        proof {
            lemma_row_major(p as int, 0, 4, n as int);
            assert(4 * p + 4 <= old_acc.len());
        }
        let off = p * 4;
        let px = read_px(acc, off);
        proof {
            assert(px@ =~= pixel_at(old_acc, p as int)) by {
                assert forall|k: int| 0 <= k < 4 implies px@[k] == old_acc[4 * p + k] by {
                    lemma_row_major(p as int, k, 4, n as int);
                    assert(acc@[4 * p + k] == old_acc[4 * p + k]);
                }
            }
        }
        let up = unpremultiply8(px);
        write_px(acc, off, up);
        proof {
            assert forall|i: int| 0 <= i < acc@.len() implies #[trigger] acc@[i] == if i / 4 < p + 1 { target[i] } else { old_acc[i] } by {
                lemma_row_major(i / 4, i % 4, 4, n as int);
                assert(i == (i / 4) * 4 + i % 4);
                if off <= i < off + 4 {
                    assert(i / 4 == p);
                } else {
                    assert(i / 4 != p);
                }
            }
        }
        p = p + 1;
    }
    proof {
        assert forall|i: int| 0 <= i < acc@.len() implies #[trigger] acc@[i] == target[i] by {
            assert(i / 4 < n);
        }
        assert(acc@ =~= target);
    }
}

/// Size of a decoded layer after its rotation, and the size it is reduced
/// to for the preview: `(tw, th, lw, lh)`.
pub open spec fn layer_preview_dims(w: u32, h: u32, rotate: u8, max_dim: u32) -> (int, int, int, int) {
    let (tw, th) = rotated_dims(w as int, h as int, rotate);
    let ls = shrink_factor(tw as u32, th as u32, max_dim);
    (tw, th, tw / ls, th / ls)
}

/// Whether a decoded `w`×`h` layer goes into a `pv_w`×`pv_h` preview without
/// overflowing the `u32` arithmetic of the reduction or dividing by a
/// zero-sized tile.
pub open spec fn layer_fits(w: u32, h: u32, rotate: u8, max_dim: u32, pv_w: int, pv_h: int) -> bool {
    let (tw, th, lw, lh) = layer_preview_dims(w, h, rotate, max_dim);
    &&& larger(tw as u32, th as u32) + max_dim - 1 <= u32::MAX
    &&& (lw > 0 && lh > 0 ==> lh * th <= u32::MAX && lw * tw <= u32::MAX)
    &&& (pv_w > 0 && pv_h > 0 ==> lw > 0 && lh > 0)
}

/// The canvas after one decoded layer (`w`×`h` RGBA8 pixels `rgba`) is
/// transformed, reduced and tiled over it.
pub open spec fn layer_composited(acc: Seq<u8>, pv_w: int, layer: LayerState, w: u32, h: u32, rgba: Seq<u8>, max_dim: u32) -> Seq<u8> {
    let (tw, th, lw, lh) = layer_preview_dims(w, h, layer.rotate, max_dim);
    let t = transformed(rgba, w, h, layer.rotate, layer.flip_h, layer.flip_v);
    tiled_over(acc, pv_w, downsampled(t, tw as u32, th as u32, lw as u32, lh as u32), lw, lh)
}

/// The preview canvas after the first `k` layers of `order` (bottom first),
/// whose files are `files`: `Ok` with the canvas, or `Err(j)` where layer
/// `j` is the first that cannot be read, decoded or fitted.
pub open spec fn preview_run(order: Seq<LayerState>, files: Seq<Result<Vec<u8>, String>>, max_dim: u32, pv_w: int, pv_h: int, k: int) -> Result<Seq<u8>, int>
    decreases k,
{
    if k <= 0 {
        Ok(Seq::new((pv_w * pv_h * 4) as nat, |i: int| 0u8))
    } else {
        match preview_run(order, files, max_dim, pv_w, pv_h, k - 1) {
            Err(j) => Err(j),
            Ok(acc) => match files[k - 1] {
                Err(_) => Err(k - 1),
                Ok(b) => match decoded_rgba8(b@) {
                    None => Err(k - 1),
                    Some((w, h, p)) => if layer_fits(w, h, order[k - 1].rotate, max_dim, pv_w, pv_h) {
                        Ok(layer_composited(acc, pv_w, order[k - 1], w, h, p, max_dim))
                    } else {
                        Err(k - 1)
                    },
                },
            },
        }
    }
}

/// Once a layer has failed, the run stays failed at that layer.
proof fn lemma_preview_run_stays_failed(order: Seq<LayerState>, files: Seq<Result<Vec<u8>, String>>, max_dim: u32, pv_w: int, pv_h: int, k: int, k2: int)
    requires
        preview_run(order, files, max_dim, pv_w, pv_h, k) is Err,
        0 <= k <= k2,
    ensures
        preview_run(order, files, max_dim, pv_w, pv_h, k2) == preview_run(order, files, max_dim, pv_w, pv_h, k),
    decreases k2 - k,
{
    if k2 > k {
        lemma_preview_run_stays_failed(order, files, max_dim, pv_w, pv_h, k, k2 - 1);
    }
}

/// Message where a layer does not fit the preview arithmetic.
pub open spec fn layer_limit_text() -> Seq<char> {
    "图层尺寸超出预览范围"@
}

/// The message for a preview that failed at layer `j`: the read error as
/// given, a decoding error, or the limit message.
pub open spec fn preview_failure(files: Seq<Result<Vec<u8>, String>>, j: int, m: Seq<char>) -> bool {
    match files[j] {
        Err(e) => m == e@,
        Ok(b) => match decoded_rgba8(b@) {
            None => load_error(b@, rgba8_supported(b@), m),
            Some(_) => m == layer_limit_text(),
        },
    }
}

/// Size of the preview of a stack whose output size is `(ow, oh)`.
pub open spec fn preview_dims(ow: u32, oh: u32, max_dim: u32) -> (int, int) {
    let s = shrink_factor(ow, oh, max_dim);
    ((ow as int) / s, (oh as int) / s)
}

/// The preview's edges are each at most `max_dim`, and a stack whose output
/// is already within `max_dim` is previewed at full size.
pub proof fn law_preview_within_max_dim(ow: u32, oh: u32, max_dim: u32)
    requires
        max_dim > 0,
    ensures
        preview_dims(ow, oh, max_dim).0 <= max_dim,
        preview_dims(ow, oh, max_dim).1 <= max_dim,
        larger(ow, oh) <= max_dim ==> preview_dims(ow, oh, max_dim) == (ow as int, oh as int),
{
    law_shrink_within_limit(ow, oh, max_dim);
    if larger(ow, oh) <= max_dim {
        assert(shrink_factor(ow, oh, max_dim) == 1);
        assert((ow as int) / 1 == ow as int && (oh as int) / 1 == oh as int);
    }
}

/// Rotated size and preview size of a decoded layer (see
/// `layer_preview_dims`), where the layer fits the preview arithmetic.
fn layer_geometry(w: u32, h: u32, rotate: u8, max_dim: u32, pv_w: u32, pv_h: u32) -> (res: Option<(u32, u32, u32, u32)>)
    requires
        max_dim > 0,
    ensures
        res is Some <==> layer_fits(w, h, rotate, max_dim, pv_w as int, pv_h as int),
        res matches Some((tw, th, lw, lh)) ==> (tw as int, th as int, lw as int, lh as int) == layer_preview_dims(w, h, rotate, max_dim),
{
    let (tw, th) = if rotate % 2 == 1 { (h, w) } else { (w, h) };
    let lm = if tw >= th { tw } else { th };
    if (lm as u64) + (max_dim as u64) - 1 > u32::MAX as u64 {
        return None;
    }
    let ls0 = (lm + (max_dim - 1)) / max_dim;
    let ls = if ls0 > 1 { ls0 } else { 1 };
    let lw = tw / ls;
    let lh = th / ls;
    if lw > 0 && lh > 0 && (!product_fits_u32(lh, th) || !product_fits_u32(lw, tw)) {
        return None;
    }
    if pv_w > 0 && pv_h > 0 && (lw == 0 || lh == 0) {
        return None;
    }
    Some((tw, th, lw, lh))
}

/// Decodes the file of one layer to RGBA8, or passes on why it could not
/// be read.
fn load_layer_file(file: &Result<Vec<u8>, String>) -> (res: Result<(u32, u32, Vec<u8>), String>)
    ensures
        match file {
            Err(e) => res matches Err(m) && m@ == e@,
            Ok(b) => match res {
                Ok((w, h, d)) => decoded_rgba8(b@) == Some((w, h, d@)) && d@.len() == w * h * 4 && w * h * 4
                    <= u32::MAX && w > 0 && h > 0,
                Err(m) => decoded_rgba8(b@) is None && load_error(b@, rgba8_supported(b@), m@),
            },
        },
{
    match file {
        Err(e) => Err(e.clone()),
        Ok(b) => load_png_rgba8(b.as_slice()),
    }
}

/// Whether `a * b` fits a `u32`.
fn product_fits_u32(a: u32, b: u32) -> (r: bool)
    ensures
        r == (a * b <= u32::MAX),
{
    proof {
        assert((a as u64) * (b as u64) <= 0xFFFF_FFFE_0000_0001u64) by (nonlinear_arith)
            requires a <= u32::MAX, b <= u32::MAX;
    }
    (a as u64) * (b as u64) <= u32::MAX as u64
}

/// What a preview of the stack `layers` at long edge `max_dim`, with
/// `files[j]` read for the `j`-th visible layer from the bottom, comes to:
/// the size mismatch message, the failure of the first layer that fails,
/// or the composited image as a PNG data URL.
pub open spec fn preview_outcome(layers: Seq<LayerState>, files: Seq<Result<Vec<u8>, String>>, max_dim: u32, res: Result<PreviewImage, String>) -> bool {
    match output_size_of(layers) {
        None => res matches Err(m) && m@ == "图层尺寸不一致"@,
        Some((ow, oh)) => {
            let (pv_w, pv_h) = preview_dims(ow, oh, max_dim);
            let order = visible_layers(layers).reverse();
            match preview_run(order, files, max_dim, pv_w, pv_h, order.len() as int) {
                Err(j) => res matches Err(m) && preview_failure(files, j, m@),
                Ok(acc) => if pv_w > 0 && pv_h > 0 {
                    res matches Ok(img) && img.width == pv_w && img.height == pv_h && img.data_url@
                        == "data:image/png;base64,"@ + base64_standard(
                        png_encoding_at(pv_w as u32, pv_h as u32, SampleDepth::Eight, PngCompression::Fast, straightened(acc)),
                    )
                } else {
                    res matches Err(m) && m@ == png_encoding_error(pv_w as u32, pv_h as u32, SampleDepth::Eight, straightened(acc))
                },
            }
        },
    }
}

/// The size of the preview of the stack `layers`; zero where the visible
/// layers disagree in size.
pub open spec fn preview_size(layers: Seq<LayerState>, max_dim: u32) -> (int, int) {
    match output_size_of(layers) {
        Some((ow, oh)) => preview_dims(ow, oh, max_dim),
        None => (0, 0),
    }
}

/// The straight-alpha RGBA8 pixels of the preview, where every layer
/// composites; empty otherwise.
pub open spec fn preview_pixels(layers: Seq<LayerState>, files: Seq<Result<Vec<u8>, String>>, max_dim: u32) -> Seq<u8> {
    let (pv_w, pv_h) = preview_size(layers, max_dim);
    let order = visible_layers(layers).reverse();
    match preview_run(order, files, max_dim, pv_w, pv_h, order.len() as int) {
        Ok(acc) => straightened(acc),
        Err(_) => Seq::empty(),
    }
}

/// The preview is in straight alpha: where compositing succeeds, each
/// preview pixel keeps the alpha `a` of the composited, premultiplied pixel,
/// and, for `0 < a < 255`, each colour channel `c` becomes `c * 255 / a`,
/// rounded down and capped at 255; a pixel with alpha 0 or 255 is kept.
pub proof fn law_preview_is_straight_alpha(layers: Seq<LayerState>, files: Seq<Result<Vec<u8>, String>>, max_dim: u32, acc: Seq<u8>, p: int, k: int)
    requires
        ({
            let (pv_w, pv_h) = preview_size(layers, max_dim);
            let order = visible_layers(layers).reverse();
            preview_run(order, files, max_dim, pv_w, pv_h, order.len() as int) == Ok::<Seq<u8>, int>(acc)
        }),
        0 <= p,
        4 * p + 4 <= acc.len(),
        0 <= k < 4,
    ensures
        ({
            let out = preview_pixels(layers, files, max_dim);
            let a = acc[4 * p + 3] as int;
            let v = acc[4 * p + k] as int;
            &&& out.len() == acc.len()
            &&& if k == 3 || a == 0 || a == 255 {
                out[4 * p + k] == acc[4 * p + k]
            } else {
                out[4 * p + k] as int == (if v * 255 / a < 255 { v * 255 / a } else { 255 })
            }
        }),
{
    let i = 4 * p + k;
    assert(i / 4 == p && i % 4 == k);
    let px = pixel_at(acc, p);
    assert(px[3] == acc[4 * p + 3] && px[k] == acc[4 * p + k]);
    if 0 < acc[4 * p + 3] < 255 && k < 3 {
        let a = acc[4 * p + 3] as int;
        let v = acc[4 * p + k] as int;
        assert(0 <= v * 255 / a) by (nonlinear_arith)
            requires 0 <= v, a > 0;
    }
}

/// The preview depends on the visible layers alone: two stacks whose
/// visible layers are the same, in the same order (whatever hidden layers
/// each holds, and however those are set), come to the same outcome.
pub proof fn law_preview_ignores_hidden_layers(l1: Seq<LayerState>, l2: Seq<LayerState>, files: Seq<Result<Vec<u8>, String>>, max_dim: u32, res: Result<PreviewImage, String>)
    requires
        visible_layers(l1) == visible_layers(l2),
    ensures
        preview_outcome(l1, files, max_dim, res) == preview_outcome(l2, files, max_dim, res),
{
}

/// Composites the visible layers of `snapshot` into a preview whose long
/// edge is at most `max_dim` and returns it as a PNG data URL. `files[j]` is
/// the outcome of reading the file of the `j`-th visible layer counted from
/// the bottom.
pub fn build_preview(snapshot: Snapshot, max_dim: u32, files: Vec<Result<Vec<u8>, String>>) -> (res: Result<PreviewImage, String>)
    requires
        max_dim > 0,
        files@.len() == visible_layers(snapshot.layers@).len(),
        output_size_of(snapshot.layers@) matches Some((ow, oh)) ==> {
            &&& larger(ow, oh) + max_dim - 1 <= u32::MAX
            &&& preview_dims(ow, oh, max_dim).0 * preview_dims(ow, oh, max_dim).1 * 4 <= u32::MAX
        },
    ensures
        preview_outcome(snapshot.layers@, files@, max_dim, res),
        res matches Ok(img) ==> ({
            let pixels = preview_pixels(snapshot.layers@, files@, max_dim);
            let file = png_encoding_at(img.width, img.height, SampleDepth::Eight, PngCompression::Fast, pixels);
            &&& img.data_url@ == "data:image/png;base64,"@ + base64_standard(file)
            &&& decoded_rgba8(file) is Some ==> decoded_rgba8(file) == Some((img.width, img.height, pixels))
        }),
{
    let ghost input = snapshot.layers@;
    let layers = snapshot.layers;
    let (out_w, out_h) = match output_size(layers.as_slice()) {
        Some(v) => v,
        None => return Err(String::from_str("图层尺寸不一致")),
    };
    let m = if out_w >= out_h { out_w } else { out_h };
    let s0 = (m + (max_dim - 1)) / max_dim;
    let scale = if s0 > 1 { s0 } else { 1 };
    let pv_w = out_w / scale;
    let pv_h = out_h / scale;
    let ghost order_spec = visible_layers(layers@).reverse();
    let mut acc = vec![0u8; (pv_w * pv_h * 4) as usize];
    let order = visible_bottom_up(layers.as_slice());
    let count = order.len();
    proof {
        assert(acc@ =~= Seq::new((pv_w * pv_h * 4) as nat, |i: int| 0u8));
        assert(order@.map_values(|l: &LayerState| *l).len() == order@.len());
    }
    let mut j: usize = 0;
    while j < count
        invariant
            max_dim > 0,
            count == order@.len(),
            count == order_spec.len(),
            files@.len() == count,
            order@.map_values(|l: &LayerState| *l) == order_spec,
            order_spec == visible_layers(layers@).reverse(),
            layers@ == input,
            input == snapshot.layers@,
            output_size_of(input) == Some((out_w, out_h)),
            (pv_w as int, pv_h as int) == preview_dims(out_w, out_h, max_dim),
            pv_w * pv_h * 4 <= u32::MAX,
            j <= count,
            acc@.len() == pv_w * pv_h * 4,
            preview_run(order_spec, files@, max_dim, pv_w as int, pv_h as int, j as int) == Ok::<Seq<u8>, int>(acc@),
        decreases count - j,
    {
        let layer = order[j];
        proof {
            assert(*layer == order_spec[j as int]);
        }
        let (w, h, rgba) = match load_layer_file(&files[j]) {
            Ok(v) => v,
            Err(m) => {
                proof {
                    assert(preview_run(order_spec, files@, max_dim, pv_w as int, pv_h as int, j + 1) == Err::<Seq<u8>, int>(j as int));
                    lemma_preview_run_stays_failed(order_spec, files@, max_dim, pv_w as int, pv_h as int, j + 1, count as int);
                }
                return Err(m);
            },
        };
        let (tw, th, lw, lh) = match layer_geometry(w, h, layer.rotate, max_dim, pv_w, pv_h) {
            Some(g) => g,
            None => {
                proof {
                    assert(preview_run(order_spec, files@, max_dim, pv_w as int, pv_h as int, j + 1) == Err::<Seq<u8>, int>(j as int));
                    lemma_preview_run_stays_failed(order_spec, files@, max_dim, pv_w as int, pv_h as int, j + 1, count as int);
                }
                return Err(String::from_str("图层尺寸超出预览范围"));
            },
        };
        proof {
            assert(0 < w * h <= u32::MAX) by (nonlinear_arith)
                requires w > 0, h > 0, w * h * 4 <= u32::MAX;
            lemma_fundamental_div_mod_converse((w * h * 4) as int, (w * h) as int, 4, 0);
            assert(inferred_bpp(rgba@.len(), w, h) == 4);
            assert(tw * th == w * h) by (nonlinear_arith)
                requires (tw == w && th == h) || (tw == h && th == w);
            let ls = shrink_factor(tw, th, max_dim);
            assert(lw * lh * 4 <= tw * th * 4) by (nonlinear_arith)
                requires ls >= 1, lw == (tw as int) / ls, lh == (th as int) / ls, tw >= 0, th >= 0;
        }
        let t = transform_into(rgba.as_slice(), w, h, layer.rotate, layer.flip_h, layer.flip_v);
        let small = downsample(t.as_slice(), tw, th, lw, lh);
        tile_over(&mut acc, pv_w, pv_h, small.as_slice(), lw, lh);
        j = j + 1;
    }
    proof {
        assert(acc@.len() % 4 == 0) by (nonlinear_arith)
            requires acc@.len() == pv_w * pv_h * 4;
    }
    straighten(&mut acc);
    assert(pv_w * pv_h * 4 * depth_bytes(SampleDepth::Eight) <= usize::MAX);
    match png_encode_rgba_at(pv_w, pv_h, SampleDepth::Eight, PngCompression::Fast, acc.as_slice()) {
        Ok(file) => {
            proof {
                assert(acc@.len() == pv_w * pv_h * 4);
                lemma_rgba8_pixels_of_rgba8(pv_w, pv_h, acc@);
            }
            Ok(PreviewImage { width: pv_w, height: pv_h, data_url: rgba8_to_data_url(file.as_slice()) })
        },
        Err(e) => Err(e),
    }
}

} // verus!
