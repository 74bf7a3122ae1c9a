//! Properties that hold across calls of the compositing functions.

use vstd::prelude::*;
use crate::model::LayerState;
use crate::composite::{visible_layers, output_size_of, lemma_visible_layers_add, blend8, blend16, over_channel, over_alpha, unpremul8, inferred_bpp, rotated_dims, dest_of, source_of, transformed, lemma_dest_source_inverse, lemma_source_dest_inverse};
use vstd::arithmetic::div_mod::lemma_fundamental_div_mod_converse;

verus! {

proof fn lemma_over_keeps_order(s: int, c: int, da: int, a: int, max: int)
    requires
        0 <= s <= max,
        0 <= c <= da <= max,
        0 < a < max,
    ensures
        over_channel(s, c, a, max) <= over_alpha(a, da, max),
        over_alpha(a, da, max) >= da,
{
    assert(s * a / max <= a) by (nonlinear_arith)
        requires 0 <= s <= max, 0 < a < max;
    assert(c * (max - a) / max <= da * (max - a) / max) by (nonlinear_arith)
        requires 0 <= c <= da, 0 < a < max;
    assert(da * (max - a) <= max * max) by (nonlinear_arith)
        requires 0 <= da <= max, 0 < a < max;
    assert(a + da * (max - a) / max >= da) by (nonlinear_arith)
        requires 0 <= da <= max, 0 < a < max;
}

/// Laying a pixel over a premultiplied accumulator keeps it premultiplied:
/// no colour channel exceeds the alpha channel afterwards (8-bit).
pub proof fn law_blend8_keeps_premultiplied(acc: Seq<u8>, src: Seq<u8>)
    requires
        acc.len() == 4,
        src.len() == 4,
        forall|c: int| 0 <= c < 3 ==> #[trigger] acc[c] <= acc[3],
    ensures
        forall|c: int| 0 <= c < 3 ==> #[trigger] blend8(acc, src)[c] <= blend8(acc, src)[3],
{
    if 0 < src[3] < 255 {
        assert forall|c: int| 0 <= c < 3 implies #[trigger] blend8(acc, src)[c] <= blend8(acc, src)[3] by {
            lemma_over_keeps_order(src[c] as int, acc[c] as int, acc[3] as int, src[3] as int, 255);
            lemma_over_keeps_order(src[0] as int, acc[0] as int, acc[3] as int, src[3] as int, 255);
        }
    }
}

/// The 16-bit counterpart of `law_blend8_keeps_premultiplied`.
pub proof fn law_blend16_keeps_premultiplied(acc: Seq<u16>, src: Seq<u16>)
    requires
        acc.len() == 4,
        src.len() == 4,
        forall|c: int| 0 <= c < 3 ==> #[trigger] acc[c] <= acc[3],
    ensures
        forall|c: int| 0 <= c < 3 ==> #[trigger] blend16(acc, src)[c] <= blend16(acc, src)[3],
{
    if 0 < src[3] < 65535 {
        assert forall|c: int| 0 <= c < 3 implies #[trigger] blend16(acc, src)[c] <= blend16(acc, src)[3] by {
            lemma_over_keeps_order(src[c] as int, acc[c] as int, acc[3] as int, src[3] as int, 65535);
            lemma_over_keeps_order(src[0] as int, acc[0] as int, acc[3] as int, src[3] as int, 65535);
        }
    }
}

/// Compositing never makes the accumulator more transparent (8-bit).
pub proof fn law_blend8_alpha_never_decreases(acc: Seq<u8>, src: Seq<u8>)
    requires
        acc.len() == 4,
        src.len() == 4,
    ensures
        blend8(acc, src)[3] >= acc[3],
{
    if 0 < src[3] < 255 {
        lemma_over_keeps_order(0, 0, acc[3] as int, src[3] as int, 255);
    }
}

/// Compositing never makes the accumulator more transparent (16-bit).
pub proof fn law_blend16_alpha_never_decreases(acc: Seq<u16>, src: Seq<u16>)
    requires
        acc.len() == 4,
        src.len() == 4,
    ensures
        blend16(acc, src)[3] >= acc[3],
{
    if 0 < src[3] < 65535 {
        lemma_over_keeps_order(0, 0, acc[3] as int, src[3] as int, 65535);
    }
}

/// For a premultiplied pixel (no colour channel above alpha) the cap in
/// the straight-alpha recovery never applies (8-bit).
pub proof fn law_unpremultiply8_of_premultiplied(px: Seq<u8>)
    requires
        px.len() == 4,
        0 < px[3] < 255,
        forall|c: int| 0 <= c < 3 ==> #[trigger] px[c] <= px[3],
    ensures
        forall|c: int| 0 <= c < 3 ==> #[trigger] unpremul8(px)[c] == (px[c] as int) * 255 / (px[3] as int),
{
    assert forall|c: int| 0 <= c < 3 implies #[trigger] unpremul8(px)[c] == (px[c] as int) * 255 / (px[3] as int) by {
        let v = px[c] as int;
        let a = px[3] as int;
        assert(v * 255 / a <= 255) by (nonlinear_arith)
            requires 0 <= v <= a, a > 0;
        assert(v * 255 / a >= 0) by (nonlinear_arith)
            requires 0 <= v, a > 0;
    }
}

/// An image that holds exactly `w * h` pixels of `bpp` bytes each.
pub open spec fn exact_image(s: Seq<u8>, w: u32, h: u32, bpp: int) -> bool {
    &&& 0 < w * h
    &&& bpp >= 0
    &&& s.len() == w * h * bpp
    &&& s.len() <= u32::MAX
}

proof fn lemma_exact_bpp(s: Seq<u8>, w: u32, h: u32, bpp: int)
    requires
        exact_image(s, w, h, bpp),
    ensures
        inferred_bpp(s.len(), w, h) == bpp,
{
    let l = s.len() as int;
    assert((l as u32) as int == l);
    lemma_fundamental_div_mod_converse(l, (w * h) as int, bpp, 0);
}

proof fn lemma_pix(i: int, bpp: int, w: int, h: int)
    requires
        bpp > 0,
        w > 0,
        h > 0,
        0 <= i < w * h * bpp,
    ensures
        0 <= i / bpp < w * h,
        0 <= i % bpp < bpp,
        i == (i / bpp) * bpp + i % bpp,
        0 <= (i / bpp) % w < w,
        0 <= (i / bpp) / w < h,
        i / bpp == ((i / bpp) / w) * w + (i / bpp) % w,
{
    let p = i / bpp;
    assert(0 <= p < w * h) by (nonlinear_arith)
        requires bpp > 0, 0 <= i < w * h * bpp, p == i / bpp;
    assert(i == p * bpp + i % bpp) by (nonlinear_arith)
        requires bpp > 0, p == i / bpp;
    assert(0 <= p / w < h) by (nonlinear_arith)
        requires w > 0, 0 <= p < w * h;
    assert(p == (p / w) * w + p % w) by (nonlinear_arith)
        requires w > 0;
}

proof fn lemma_index(x: int, y: int, k: int, w: int, h: int, bpp: int)
    requires
        0 <= x < w,
        0 <= y < h,
        0 <= k < bpp,
    ensures
        ((y * w + x) * bpp + k) / bpp == y * w + x,
        ((y * w + x) * bpp + k) % bpp == k,
        (y * w + x) % w == x,
        (y * w + x) / w == y,
        0 <= (y * w + x) * bpp + k < w * h * bpp,
{
    lemma_fundamental_div_mod_converse((y * w + x) * bpp + k, bpp, y * w + x, k);
    lemma_fundamental_div_mod_converse(y * w + x, w, y, x);
    assert(0 <= (y * w + x) * bpp + k < w * h * bpp) by (nonlinear_arith)
        requires 0 <= x < w, 0 <= y < h, 0 <= k < bpp;
}

/// Each source pixel `(x, y)` of an exactly sized image lands, byte for
/// byte, at `dest_of(x, y)` in the transformed image.
pub proof fn law_transform_moves_pixels(s: Seq<u8>, w: u32, h: u32, bpp: int, rotate: u8, flip_h: bool, flip_v: bool, x: int, y: int, k: int)
    requires
        exact_image(s, w, h, bpp),
        0 <= x < w,
        0 <= y < h,
        0 <= k < bpp,
    ensures
        ({
            let t = transformed(s, w, h, rotate, flip_h, flip_v);
            let (nw, nh) = rotated_dims(w as int, h as int, rotate);
            let (dx, dy) = dest_of(w as int, h as int, rotate, flip_h, flip_v, x, y);
            &&& t.len() == s.len()
            &&& t[(dy * nw + dx) * bpp + k] == s[(y * w + x) * bpp + k]
        }),
{
    lemma_exact_bpp(s, w, h, bpp);
    let (nw, nh) = rotated_dims(w as int, h as int, rotate);
    let (dx, dy) = dest_of(w as int, h as int, rotate, flip_h, flip_v, x, y);
    lemma_dest_source_inverse(w as int, h as int, rotate, flip_h, flip_v, x, y);
    lemma_index(dx, dy, k, nw, nh, bpp);
    assert(nw * nh * bpp == w * h * bpp) by (nonlinear_arith)
        requires (nw == w && nh == h) || (nw == h && nh == w);
}

proof fn lemma_transformed_exact(s: Seq<u8>, w: u32, h: u32, bpp: int, rotate: u8, flip_h: bool, flip_v: bool)
    requires
        exact_image(s, w, h, bpp),
    ensures
        ({
            let (nw, nh) = rotated_dims(w as int, h as int, rotate);
            exact_image(transformed(s, w, h, rotate, flip_h, flip_v), nw as u32, nh as u32, bpp)
        }),
{
    lemma_exact_bpp(s, w, h, bpp);
    let (nw, nh) = rotated_dims(w as int, h as int, rotate);
    assert(nw * nh * bpp == w * h * bpp && nw * nh == w * h) by (nonlinear_arith)
        requires (nw == w && nh == h) || (nw == h && nh == w);
}

/// Applying the transform `(rotate, flip_h, flip_v)` and then its inverse
/// gives the image back, where the inverse of a transform is `second` and
/// the pixel maps compose to the identity.
proof fn lemma_transform_round_trip(s: Seq<u8>, w: u32, h: u32, bpp: int, r1: u8, fh1: bool, fv1: bool, r2: u8, fh2: bool, fv2: bool)
    requires
        exact_image(s, w, h, bpp),
        bpp > 0,
        rotated_dims(rotated_dims(w as int, h as int, r1).0, rotated_dims(w as int, h as int, r1).1, r2)
            == (w as int, h as int),
        forall|x: int, y: int| 0 <= x < w && 0 <= y < h ==> #[trigger] source_of(w as int, h as int, r1, fh1, fv1,
            source_of(rotated_dims(w as int, h as int, r1).0, rotated_dims(w as int, h as int, r1).1, r2, fh2, fv2, x, y).0,
            source_of(rotated_dims(w as int, h as int, r1).0, rotated_dims(w as int, h as int, r1).1, r2, fh2, fv2, x, y).1)
            == (x, y),
    ensures
        ({
            let (nw, nh) = rotated_dims(w as int, h as int, r1);
            transformed(transformed(s, w, h, r1, fh1, fv1), nw as u32, nh as u32, r2, fh2, fv2) == s
        }),
{
    let (nw, nh) = rotated_dims(w as int, h as int, r1);
    let t = transformed(s, w, h, r1, fh1, fv1);
    lemma_transformed_exact(s, w, h, bpp, r1, fh1, fv1);
    lemma_exact_bpp(s, w, h, bpp);
    lemma_exact_bpp(t, nw as u32, nh as u32, bpp);
    let u = transformed(t, nw as u32, nh as u32, r2, fh2, fv2);
    assert(w > 0 && h > 0) by (nonlinear_arith)
        requires 0 < w * h, w >= 0, h >= 0;
    lemma_transformed_exact(t, nw as u32, nh as u32, bpp, r2, fh2, fv2);
    assert forall|i: int| 0 <= i < s.len() implies u[i] == s[i] by {
        lemma_pix(i, bpp, w as int, h as int);
        let p = i / bpp;
        let k = i % bpp;
        let x = p % (w as int);
        let y = p / (w as int);
        let (sx, sy) = source_of(nw, nh, r2, fh2, fv2, x, y);
        assert(nw > 0 && nh > 0) by (nonlinear_arith)
            requires (nw == w && nh == h) || (nw == h && nh == w), w * h > 0, w >= 0, h >= 0;
        lemma_source_dest_inverse(nw, nh, r2, fh2, fv2, x, y);
        lemma_index(sx, sy, k, nw, nh, bpp);
        assert(u[i] == t[(sy * nw + sx) * bpp + k]);
        assert(source_of(w as int, h as int, r1, fh1, fv1, sx, sy) == (x, y));
        assert(t[(sy * nw + sx) * bpp + k] == s[(y * w + x) * bpp + k]);
    }
    assert(u =~= s);
}

/// Mirroring alone is undone by mirroring the same way again.
pub proof fn law_flip_twice_restores(s: Seq<u8>, w: u32, h: u32, bpp: int, flip_h: bool, flip_v: bool)
    requires
        exact_image(s, w, h, bpp),
    ensures
        transformed(transformed(s, w, h, 0, flip_h, flip_v), w, h, 0, flip_h, flip_v) == s,
{
    if bpp == 0 {
        lemma_transformed_exact(s, w, h, bpp, 0, flip_h, flip_v);
        lemma_transformed_exact(transformed(s, w, h, 0, flip_h, flip_v), w, h, bpp, 0, flip_h, flip_v);
        assert(transformed(transformed(s, w, h, 0, flip_h, flip_v), w, h, 0, flip_h, flip_v) =~= s);
    } else {
        lemma_transform_round_trip(s, w, h, bpp, 0, flip_h, flip_v, 0, flip_h, flip_v);
    }
}

/// `rotate` quarter turns are undone by the remaining turns of a
/// full circle, applied to the rotated image.
pub proof fn law_rotation_undone(s: Seq<u8>, w: u32, h: u32, bpp: int, rotate: u8)
    requires
        exact_image(s, w, h, bpp),
    ensures
        ({
            let (nw, nh) = rotated_dims(w as int, h as int, rotate);
            let back = ((4 - rotate % 4) % 4) as u8;
            transformed(transformed(s, w, h, rotate, false, false), nw as u32, nh as u32, back, false, false) == s
        }),
{
    let (nw, nh) = rotated_dims(w as int, h as int, rotate);
    let back = ((4 - rotate % 4) % 4) as u8;
    if bpp == 0 {
        lemma_transformed_exact(s, w, h, bpp, rotate, false, false);
        lemma_transformed_exact(transformed(s, w, h, rotate, false, false), nw as u32, nh as u32, bpp, back, false, false);
        assert(transformed(transformed(s, w, h, rotate, false, false), nw as u32, nh as u32, back, false, false) =~= s);
    } else {
        lemma_transform_round_trip(s, w, h, bpp, rotate, false, false, back, false, false);
    }
}

/// A hidden layer, wherever it stands in the stack, changes neither the
/// layers that are composited nor the output size.
pub proof fn law_hidden_layer_ignored(above: Seq<LayerState>, hidden: LayerState, below: Seq<LayerState>)
    requires
        !hidden.visible,
    ensures
        visible_layers(above.push(hidden) + below) == visible_layers(above + below),
        output_size_of(above.push(hidden) + below) == output_size_of(above + below),
{
    lemma_visible_layers_add(above.push(hidden), below);
    lemma_visible_layers_add(above, below);
    assert(above.push(hidden).drop_last() =~= above);
    assert(visible_layers(above.push(hidden)) == visible_layers(above));
}

/// The mirrors act after the quarter turns, in the turned frame: the
/// transformed image, at destination pixel `(dx, dy)` of its `nw`×`nh`
/// frame, holds what the merely turned image holds at `(nw - 1 - dx, dy)`
/// if `flip_h` (else column `dx`) and row `nh - 1 - dy` if `flip_v` (else
/// row `dy`).
pub proof fn law_flips_act_after_turn(s: Seq<u8>, w: u32, h: u32, bpp: int, rotate: u8, flip_h: bool, flip_v: bool, dx: int, dy: int, k: int)
    requires
        exact_image(s, w, h, bpp),
        0 <= dx < (if rotate % 2 == 1 { h as int } else { w as int }),
        0 <= dy < (if rotate % 2 == 1 { w as int } else { h as int }),
        0 <= k < bpp,
    ensures
        ({
            let nw = if rotate % 2 == 1 { h as int } else { w as int };
            let nh = if rotate % 2 == 1 { w as int } else { h as int };
            let mx = if flip_h { nw - 1 - dx } else { dx };
            let my = if flip_v { nh - 1 - dy } else { dy };
            transformed(s, w, h, rotate, flip_h, flip_v)[(dy * nw + dx) * bpp + k]
                == transformed(s, w, h, rotate, false, false)[(my * nw + mx) * bpp + k]
        }),
{
    assert(w > 0 && h > 0) by (nonlinear_arith)
        requires 0 < w * h;
    let (sx, sy) = source_of(w as int, h as int, rotate, flip_h, flip_v, dx, dy);
    lemma_source_dest_inverse(w as int, h as int, rotate, flip_h, flip_v, dx, dy);
    law_transform_moves_pixels(s, w, h, bpp, rotate, flip_h, flip_v, sx, sy, k);
    law_transform_moves_pixels(s, w, h, bpp, rotate, false, false, sx, sy, k);
}

/// One quarter turn: source row `y`, read left to right, becomes
/// destination column `y`, read bottom to top; that is, source pixel
/// `(x, y)` of the `w`×`h` image lands at column `y`, row `w - 1 - x` of the
/// `h`×`w` result. Two turns send `(x, y)` to `(w - 1 - x, h - 1 - y)`, three
/// to `(h - 1 - y, x)`, and a number of turns divisible by four leaves the
/// pixel in place.
pub proof fn law_quarter_turns(s: Seq<u8>, w: u32, h: u32, bpp: int, rotate: u8, x: int, y: int, k: int)
    requires
        exact_image(s, w, h, bpp),
        0 <= x < w,
        0 <= y < h,
        0 <= k < bpp,
    ensures
        rotate % 4 == 0 ==> transformed(s, w, h, rotate, false, false)[(y * w + x) * bpp + k] == s[(y * w + x) * bpp + k],
        rotate % 4 == 1 ==> transformed(s, w, h, rotate, false, false)[((w - 1 - x) * h + y) * bpp + k] == s[(y * w + x) * bpp + k],
        rotate % 4 == 2 ==> transformed(s, w, h, rotate, false, false)[((h - 1 - y) * w + (w - 1 - x)) * bpp + k] == s[(y * w + x) * bpp + k],
        rotate % 4 == 3 ==> transformed(s, w, h, rotate, false, false)[(x * h + (h - 1 - y)) * bpp + k] == s[(y * w + x) * bpp + k],
{
    law_transform_moves_pixels(s, w, h, bpp, rotate, false, false, x, y, k);
}

} // verus!
