//! Premultiplied source-over blending, straight-alpha recovery, layer
//! transforms and the layer-order and output-size rules.

use vstd::prelude::*;
use vstd::arithmetic::div_mod::lemma_fundamental_div_mod_converse;
use crate::model::LayerState;

verus! {

/// `x` capped at `cap`.
pub open spec fn capped(x: int, cap: int) -> int {
    if x < cap { x } else { cap }
}

/// One colour channel after a straight-alpha sample `s` with alpha `a` is
/// laid over a premultiplied sample `d`, at full scale `max`.
pub open spec fn over_channel(s: int, d: int, a: int, max: int) -> int {
    capped(s * a / max + d * (max - a) / max, max)
}

/// The alpha channel after alpha `a` is laid over alpha `da`.
pub open spec fn over_alpha(a: int, da: int, max: int) -> int {
    capped(a + da * (max - a) / max, max)
}

/// The 8-bit premultiplied accumulator `acc` after `src` is laid over it.
pub open spec fn blend8(acc: Seq<u8>, src: Seq<u8>) -> Seq<u8> {
    let a = src[3] as int;
    if a == 0 {
        acc
    } else if a == 255 {
        src
    } else {
        seq![
            over_channel(src[0] as int, acc[0] as int, a, 255) as u8,
            over_channel(src[1] as int, acc[1] as int, a, 255) as u8,
            over_channel(src[2] as int, acc[2] as int, a, 255) as u8,
            over_alpha(a, acc[3] as int, 255) as u8,
        ]
    }
}

/// The 16-bit premultiplied accumulator `acc` after `src` is laid over it.
pub open spec fn blend16(acc: Seq<u16>, src: Seq<u16>) -> Seq<u16> {
    let a = src[3] as int;
    if a == 0 {
        acc
    } else if a == 65535 {
        src
    } else {
        seq![
            over_channel(src[0] as int, acc[0] as int, a, 65535) as u16,
            over_channel(src[1] as int, acc[1] as int, a, 65535) as u16,
            over_channel(src[2] as int, acc[2] as int, a, 65535) as u16,
            over_alpha(a, acc[3] as int, 65535) as u16,
        ]
    }
}

proof fn lemma_over_bounds(s: int, d: int, a: int, max: int)
    requires
        0 <= s <= max,
        0 <= d <= max,
        0 < a < max,
    ensures
        0 <= s * a <= max * max,
        0 <= d * (max - a) <= max * max,
        0 <= s * a / max <= a,
        0 <= d * (max - a) / max <= max - a,
        0 <= over_channel(s, d, a, max) <= max,
        0 <= over_alpha(a, d, max) <= max,
        s * a / max + d * (max - a) / max <= max,
        a + d * (max - a) / max <= max,
{
    assert(0 <= s * a <= max * max) by (nonlinear_arith)
        requires 0 <= s <= max, 0 < a < max;
    assert(0 <= d * (max - a) <= max * max) by (nonlinear_arith)
        requires 0 <= d <= max, 0 < a < max;
    assert(0 <= s * a / max <= a) by (nonlinear_arith)
        requires 0 <= s <= max, 0 < a < max;
    assert(0 <= d * (max - a) / max <= max - a) by (nonlinear_arith)
        requires 0 <= d <= max, 0 < a < max;
}

/// One 8-bit colour channel of the source-over step, exactly as
/// `over_channel` computes it.
fn over_channel8(s: u8, d: u8, a: u32) -> (r: u8)
    requires
        0 < a < 255,
    ensures
        r == over_channel(s as int, d as int, a as int, 255),
{
    proof { lemma_over_bounds(s as int, d as int, a as int, 255); }
    let sp = (s as u32 * a) / 255;
    let v = sp + (d as u32 * (255 - a)) / 255;
    let v = if v < 255 { v } else { 255 };
    v as u8
}

/// One 16-bit colour channel of the source-over step.
fn over_channel16(s: u16, d: u16, a: u64) -> (r: u16)
    requires
        0 < a < 65535,
    ensures
        r == over_channel(s as int, d as int, a as int, 65535),
{
    proof { lemma_over_bounds(s as int, d as int, a as int, 65535); }
    let sp = (s as u64 * a) / 65535;
    let v = sp + (d as u64 * (65535 - a)) / 65535;
    let v = if v < 65535 { v } else { 65535 };
    v as u16
}

/// 8-bit premultiplied source-over: lays the straight-alpha pixel `src`
/// over the premultiplied accumulator `acc`.
pub fn blend_premul8(acc: &mut [u8; 4], src: [u8; 4])
    ensures
        final(acc)@ == blend8(old(acc)@, src@),
{
    let a = src[3] as u32;
    if a == 0 {
        return;
    }
    let da = acc[3] as u32;
    if a == 255 {
        *acc = src;
        return;
    }
    let ghost acc0 = acc@;
    proof { lemma_over_bounds(0, da as int, a as int, 255); }
    let c0 = over_channel8(src[0], acc[0], a);
    let c1 = over_channel8(src[1], acc[1], a);
    let c2 = over_channel8(src[2], acc[2], a);
    let inv = 255 - a;
    let al = a + (da * inv) / 255;
    let al = if al < 255 { al } else { 255 };
    acc.set(0, c0);
    acc.set(1, c1);
    acc.set(2, c2);
    acc.set(3, al as u8);
    assert(acc@ =~= blend8(acc0, src@));
}

/// 16-bit premultiplied source-over.
pub fn blend_premul16(acc: &mut [u16; 4], src: [u16; 4])
    ensures
        final(acc)@ == blend16(old(acc)@, src@),
{
    let a = src[3] as u64;
    if a == 0 {
        return;
    }
    let da = acc[3] as u64;
    if a == 65535 {
        *acc = src;
        return;
    }
    let ghost acc0 = acc@;
    proof { lemma_over_bounds(0, da as int, a as int, 65535); }
    let c0 = over_channel16(src[0], acc[0], a);
    let c1 = over_channel16(src[1], acc[1], a);
    let c2 = over_channel16(src[2], acc[2], a);
    let inv = 65535 - a;
    let al = a + (da * inv) / 65535;
    let al = if al < 65535 { al } else { 65535 };
    acc.set(0, c0);
    acc.set(1, c1);
    acc.set(2, c2);
    acc.set(3, al as u16);
    assert(acc@ =~= blend16(acc0, src@));
}


/// Straight-alpha value of one premultiplied 8-bit or 16-bit channel.
pub open spec fn straight_channel(c: int, a: int, max: int) -> int {
    capped(c * max / a, max)
}

/// An 8-bit premultiplied pixel turned back into straight alpha; fully
/// transparent and fully opaque pixels are left as they are.
pub open spec fn unpremul8(px: Seq<u8>) -> Seq<u8> {
    let a = px[3] as int;
    if a == 0 || a == 255 {
        px
    } else {
        seq![
            straight_channel(px[0] as int, a, 255) as u8,
            straight_channel(px[1] as int, a, 255) as u8,
            straight_channel(px[2] as int, a, 255) as u8,
            px[3],
        ]
    }
}

/// The 16-bit counterpart of `unpremul8`.
pub open spec fn unpremul16(px: Seq<u16>) -> Seq<u16> {
    let a = px[3] as int;
    if a == 0 || a == 65535 {
        px
    } else {
        seq![
            straight_channel(px[0] as int, a, 65535) as u16,
            straight_channel(px[1] as int, a, 65535) as u16,
            straight_channel(px[2] as int, a, 65535) as u16,
            px[3],
        ]
    }
}

proof fn lemma_straight_bounds(c: int, a: int, max: int)
    requires
        0 <= c <= max,
        0 < a < max,
    ensures
        0 <= c * max <= max * max,
        0 <= c * max / a,
        0 <= straight_channel(c, a, max) <= max,
{
    assert(0 <= c * max <= max * max) by (nonlinear_arith)
        requires 0 <= c <= max, 0 < a < max;
    assert(0 <= c * max / a) by (nonlinear_arith)
        requires 0 <= c <= max, 0 < a < max;
}

fn straight8(c: u8, a: u32) -> (r: u8)
    requires
        0 < a < 255,
    ensures
        r == straight_channel(c as int, a as int, 255),
{
    proof { lemma_straight_bounds(c as int, a as int, 255); }
    let v = (c as u32 * 255) / a;
    let v = if v < 255 { v } else { 255 };
    v as u8
}

fn straight16(c: u16, a: u64) -> (r: u16)
    requires
        0 < a < 65535,
    ensures
        r == straight_channel(c as int, a as int, 65535),
{
    proof { lemma_straight_bounds(c as int, a as int, 65535); }
    let v = (c as u64 * 65535) / a;
    let v = if v < 65535 { v } else { 65535 };
    v as u16
}

/// Premultiplied accumulator pixel to straight-alpha output (8-bit).
pub fn unpremultiply8(px: [u8; 4]) -> (out: [u8; 4])
    ensures
        out@ == unpremul8(px@),
{
    let a = px[3] as u32;
    if a == 0 || a == 255 {
        return px;
    }
    let out = [straight8(px[0], a), straight8(px[1], a), straight8(px[2], a), px[3]];
    assert(out@ =~= unpremul8(px@));
    out
}

/// Premultiplied accumulator pixel to straight-alpha output (16-bit).
pub fn unpremultiply16(px: [u16; 4]) -> (out: [u16; 4])
    ensures
        out@ == unpremul16(px@),
{
    let a = px[3] as u64;
    if a == 0 || a == 65535 {
        return px;
    }
    let out = [straight16(px[0], a), straight16(px[1], a), straight16(px[2], a), px[3]];
    assert(out@ =~= unpremul16(px@));
    out
}

/// The visible layers of `s`, in the order of `s` (top first).
pub open spec fn visible_layers(s: Seq<LayerState>) -> Seq<LayerState>
    decreases s.len(),
{
    if s.len() == 0 {
        Seq::empty()
    } else {
        let rest = visible_layers(s.drop_last());
        if s.last().visible {
            rest.push(s.last())
        } else {
            rest
        }
    }
}

/// Taking the visible layers distributes over concatenation.
pub proof fn lemma_visible_layers_add(a: Seq<LayerState>, b: Seq<LayerState>)
    ensures
        visible_layers(a + b) == visible_layers(a) + visible_layers(b),
    decreases b.len(),
{
    if b.len() == 0 {
        assert(a + b =~= a);
        assert(visible_layers(b) =~= Seq::<LayerState>::empty());
        assert(visible_layers(a) + visible_layers(b) =~= visible_layers(a));
    } else {
        lemma_visible_layers_add(a, b.drop_last());
        assert((a + b).drop_last() =~= a + b.drop_last());
        assert((a + b).last() == b.last());
        if b.last().visible {
            assert(visible_layers(a) + visible_layers(b.drop_last()).push(b.last())
                =~= (visible_layers(a) + visible_layers(b.drop_last())).push(b.last()));
        }
    }
}

proof fn lemma_visible_layers_len(s: Seq<LayerState>)
    ensures
        visible_layers(s).len() <= s.len(),
    decreases s.len(),
{
    if s.len() > 0 {
        lemma_visible_layers_len(s.drop_last());
    }
}

/// The visible layers, bottom first: the order in which they are composited.
pub fn visible_bottom_up(layers: &[LayerState]) -> (res: Vec<&LayerState>)
    ensures
        res@.map_values(|l: &LayerState| *l) == visible_layers(layers@).reverse(),
{
    let mut res: Vec<&LayerState> = Vec::new();
    let n = layers.len();
    let mut i = n;
    assert(layers@.subrange(n as int, n as int) =~= Seq::<LayerState>::empty());
    while i > 0
        invariant
            i <= n,
            n == layers@.len(),
            res@.map_values(|l: &LayerState| *l)
                == visible_layers(layers@.subrange(i as int, n as int)).reverse(),
        decreases i,
    {
        let ghost tail = layers@.subrange(i as int, n as int);
        let ghost old_res = res@;
        let l = &layers[i - 1];
        proof {
            let x = layers@[i - 1];
            assert(layers@.subrange(i - 1, n as int) =~= seq![x] + tail);
            lemma_visible_layers_add(seq![x], tail);
            assert(seq![x].drop_last() =~= Seq::<LayerState>::empty());
            assert(seq![x].last() == x);
            assert(visible_layers(Seq::<LayerState>::empty()) =~= Seq::<LayerState>::empty());
        }
        if l.visible {
            res.push(l);
            proof {
                let x = layers@[i - 1];
                assert(visible_layers(seq![x]) =~= seq![x]);
                assert((seq![x] + visible_layers(tail)).reverse()
                    =~= visible_layers(tail).reverse().push(x));
                assert(res@.map_values(|l: &LayerState| *l)
                    =~= old_res.map_values(|l: &LayerState| *l).push(x));
            }
        } else {
            proof {
                let x = layers@[i - 1];
                assert(visible_layers(seq![x]) =~= Seq::<LayerState>::empty());
                assert(Seq::<LayerState>::empty() + visible_layers(tail) =~= visible_layers(tail));
            }
        }
        i = i - 1;
    }
    assert(layers@.subrange(0, n as int) =~= layers@);
    res
}

/// Width and height of a layer once its rotation is applied.
pub open spec fn oriented_size(l: LayerState) -> (u32, u32) {
    if l.rotate % 2 == 1 {
        (l.height, l.width)
    } else {
        (l.width, l.height)
    }
}

/// The output size of a layer stack: that of its visible layers, when
/// there is at least one and they all agree; `None` otherwise.
pub open spec fn output_size_of(layers: Seq<LayerState>) -> Option<(u32, u32)> {
    let v = visible_layers(layers);
    if v.len() > 0 && forall|j: int| 0 <= j < v.len() ==> oriented_size(#[trigger] v[j])
        == oriented_size(v[0]) {
        Some(oriented_size(v[0]))
    } else {
        None
    }
}

/// The output size that all visible layers must share (a quarter turn
/// swaps a layer's width and height).
pub fn output_size(layers: &[LayerState]) -> (res: Option<(u32, u32)>)
    ensures
        res == output_size_of(layers@),
{
    let mut size: Option<(u32, u32)> = None;
    let n = layers.len();
    let mut i: usize = 0;
    while i < n
        invariant
            i <= n,
            n == layers@.len(),
            ({
                let v = visible_layers(layers@.take(i as int));
                &&& v.len() == 0 ==> size is None
                &&& v.len() > 0 ==> size == Some(oriented_size(v[0]))
                &&& forall|j: int| 0 <= j < v.len() ==> oriented_size(#[trigger] v[j])
                    == oriented_size(v[0])
            }),
        decreases n - i,
    {
        let l = &layers[i];
        proof {
            assert(layers@.take(i + 1).drop_last() =~= layers@.take(i as int));
        }
        if l.visible {
            let (w, h) = if l.rotate % 2 == 1 { (l.height, l.width) } else { (l.width, l.height) };
            match size {
                None => {
                    size = Some((w, h));
                },
                Some(s) => {
                    if s.0 == w && s.1 == h {
                    } else {
                        proof {
                            let pre = visible_layers(layers@.take(i + 1));
                            assert(layers@ =~= layers@.take(i + 1) + layers@.skip(i + 1));
                            lemma_visible_layers_add(layers@.take(i + 1), layers@.skip(i + 1));
                            let v = visible_layers(layers@);
                            assert(v[pre.len() - 1] == pre[pre.len() - 1]);
                            assert(v[0] == pre[0]);
                        }
                        return None;
                    }
                },
            }
        }
        i = i + 1;
    }
    assert(layers@.take(n as int) =~= layers@);
    size
}


/// Width and height after `rotate` quarter turns: an odd count swaps them.
pub open spec fn rotated_dims(w: int, h: int, rotate: u8) -> (int, int) {
    if rotate % 2 == 1 {
        (h, w)
    } else {
        (w, h)
    }
}

/// Where source pixel `(x, y)` of a `w`×`h` image lands after the turns
/// and then the horizontal and vertical flips.
pub open spec fn dest_of(w: int, h: int, rotate: u8, flip_h: bool, flip_v: bool, x: int, y: int) -> (
    int,
    int,
) {
    let (nw, nh) = rotated_dims(w, h, rotate);
    let (dx, dy) = if rotate % 4 == 0 {
        (x, y)
    } else if rotate % 4 == 1 {
        (y, w - 1 - x)
    } else if rotate % 4 == 2 {
        (w - 1 - x, h - 1 - y)
    } else {
        (h - 1 - y, x)
    };
    (if flip_h { nw - 1 - dx } else { dx }, if flip_v { nh - 1 - dy } else { dy })
}

/// The source pixel that lands on destination pixel `(dx, dy)`.
pub open spec fn source_of(w: int, h: int, rotate: u8, flip_h: bool, flip_v: bool, dx: int, dy: int) -> (
    int,
    int,
) {
    let (nw, nh) = rotated_dims(w, h, rotate);
    let ux = if flip_h { nw - 1 - dx } else { dx };
    let uy = if flip_v { nh - 1 - dy } else { dy };
    if rotate % 4 == 0 {
        (ux, uy)
    } else if rotate % 4 == 1 {
        (w - 1 - uy, ux)
    } else if rotate % 4 == 2 {
        (w - 1 - ux, h - 1 - uy)
    } else {
        (uy, h - 1 - ux)
    }
}

/// Bytes per pixel as the transform infers them: the source length, taken
/// as a `u32`, divided by the pixel count.
pub open spec fn inferred_bpp(len: nat, w: u32, h: u32) -> int {
    ((len as u32) as int) / (w * h)
}

/// Byte `i` of the transformed image.
pub open spec fn transformed_byte(src: Seq<u8>, w: u32, h: u32, rotate: u8, flip_h: bool, flip_v: bool, i: int) -> u8 {
    let bpp = inferred_bpp(src.len(), w, h);
    let (nw, nh) = rotated_dims(w as int, h as int, rotate);
    let p = i / bpp;
    let (sx, sy) = source_of(w as int, h as int, rotate, flip_h, flip_v, p % nw, p / nw);
    src[(sy * w + sx) * bpp + i % bpp]
}

/// The image `src` (`w`×`h` pixels) turned `rotate` quarter turns (one turn
/// sends column `x`, row `y` to column `y`, row `w - 1 - x`), then mirrored
/// left-right if `flip_h` and top-bottom if `flip_v`.
pub open spec fn transformed(src: Seq<u8>, w: u32, h: u32, rotate: u8, flip_h: bool, flip_v: bool) -> Seq<u8> {
    let bpp = inferred_bpp(src.len(), w, h);
    let (nw, nh) = rotated_dims(w as int, h as int, rotate);
    Seq::new((nw * nh * bpp) as nat, |i: int| transformed_byte(src, w, h, rotate, flip_h, flip_v, i))
}

/// Every destination pixel comes from a source pixel, and goes back to it.
pub proof fn lemma_source_dest_inverse(w: int, h: int, rotate: u8, flip_h: bool, flip_v: bool, dx: int, dy: int)
    requires
        w > 0,
        h > 0,
        0 <= dx < rotated_dims(w, h, rotate).0,
        0 <= dy < rotated_dims(w, h, rotate).1,
    ensures
        ({
            let (sx, sy) = source_of(w, h, rotate, flip_h, flip_v, dx, dy);
            &&& 0 <= sx < w
            &&& 0 <= sy < h
            &&& dest_of(w, h, rotate, flip_h, flip_v, sx, sy) == (dx, dy)
        }),
{
}

/// Every source pixel lands inside the destination, and comes back from there.
pub proof fn lemma_dest_source_inverse(w: int, h: int, rotate: u8, flip_h: bool, flip_v: bool, x: int, y: int)
    requires
        0 <= x < w,
        0 <= y < h,
    ensures
        ({
            let (dx, dy) = dest_of(w, h, rotate, flip_h, flip_v, x, y);
            &&& 0 <= dx < rotated_dims(w, h, rotate).0
            &&& 0 <= dy < rotated_dims(w, h, rotate).1
            &&& source_of(w, h, rotate, flip_h, flip_v, dx, dy) == (x, y)
        }),
{
}

proof fn lemma_split(i: int, b: int, n: int)
    requires
        b > 0,
        0 <= i,
        i < n * b || i < b * n,
    ensures
        0 <= i / b < n,
        0 <= i % b < b,
        i == (i / b) * b + i % b,
{
    assert(0 <= i / b < n) by (nonlinear_arith)
        requires b > 0, 0 <= i, i < n * b || i < b * n;
    assert(i == (i / b) * b + i % b) by (nonlinear_arith)
        requires b > 0;
}

proof fn lemma_join(q: int, r: int, b: int, n: int)
    requires
        b > 0,
        0 <= r < b,
        0 <= q < n,
    ensures
        (q * b + r) / b == q,
        (q * b + r) % b == r,
        0 <= q * b + r < n * b,
{
    lemma_fundamental_div_mod_converse(q * b + r, b, q, r);
    assert(0 <= q * b + r < n * b) by (nonlinear_arith)
        requires b > 0, 0 <= r < b, 0 <= q < n;
}

/// Whether byte `i` of the destination was already written when the copy
/// has reached source pixel `(x, y)` and byte `k` of it.
spec fn written_before(w: u32, h: u32, rotate: u8, flip_h: bool, flip_v: bool, bpp: int, i: int, x: int, y: int, k: int) -> bool {
    let (nw, nh) = rotated_dims(w as int, h as int, rotate);
    let p = i / bpp;
    let (sx, sy) = source_of(w as int, h as int, rotate, flip_h, flip_v, p % nw, p / nw);
    sy < y || (sy == y && sx < x) || (sy == y && sx == x && i % bpp < k)
}

proof fn lemma_truncated_len(len: usize)
    ensures
        (len as u32) as int <= len as int,
{
    assert((len as u32) as usize <= len) by (bit_vector);
}

/// Copies pixels under a transform: `rotate` quarter turns (see
/// `dest_of`), then the horizontal and vertical flips. The bytes per pixel are inferred from
/// `src.len() / (w * h)` (4 for RGBA8, 8 for RGBA16).
pub fn transform_into(src: &[u8], w: u32, h: u32, rotate: u8, flip_h: bool, flip_v: bool) -> (out: Vec<u8>)
    requires
        0 < w * h <= u32::MAX,
    ensures
        out@ == transformed(src@, w, h, rotate, flip_h, flip_v),
{
    let rotated = rotate % 2 == 1;
    let nw = if rotated { h } else { w };
    let nh = if rotated { w } else { h };
    proof {
        lemma_truncated_len(src.len());
        assert(nw * nh == w * h) by (nonlinear_arith)
            requires (nw == w && nh == h) || (nw == h && nh == w);
        assert(w > 0 && h > 0) by (nonlinear_arith)
            requires 0 < w * h;
    }
    let src_len = src.len();
    let bpp = (src_len as u32 / (w * h)) as usize;
    let ghost bi = bpp as int;
    proof {
        let l = (src.len() as u32) as int;
        let wh = (w * h) as int;
        assert(0 <= bi * wh <= l) by (nonlinear_arith)
            requires bi == l / wh, wh > 0, l >= 0;
        assert((nw * nh) * bi == bi * wh) by (nonlinear_arith)
            requires nw * nh == wh;
        assert(l <= u32::MAX);
    }
    let total = (nw * nh) as usize * bpp;
    let mut dst = vec![0u8; total];
    proof {
        assert forall|i: int| 0 <= i < total implies
            !written_before(w, h, rotate, flip_h, flip_v, bpp as int, i, 0, 0, 0)
            && dst@[i] == 0u8
        by {
            let p = i / (bpp as int);
            lemma_split(i, bpp as int, (nw * nh) as int);
            lemma_split(p, nw as int, nh as int);
            lemma_source_dest_inverse(w as int, h as int, rotate, flip_h, flip_v, p % (nw as int), p / (nw as int));
        }
    }
    let mut y: u32 = 0;
    while y < h
        invariant
            0 <= y <= h,
            w > 0 && h > 0,
            0 < w * h <= u32::MAX,
            nw * nh == w * h,
            (nw as int, nh as int) == rotated_dims(w as int, h as int, rotate),
            bpp == inferred_bpp(src@.len(), w, h),
            total == nw * nh * bpp,
            bpp * (w * h) <= src@.len(),
            src_len == src@.len(),
            dst@.len() == total,
            forall|i: int| 0 <= i < total ==> #[trigger] dst@[i] == if written_before(w, h, rotate, flip_h, flip_v, bpp as int, i, 0, y as int, 0) {
                transformed_byte(src@, w, h, rotate, flip_h, flip_v, i)
            } else {
                0u8
            },
        decreases h - y,
    {
        let mut x: u32 = 0;
        while x < w
            invariant
                0 <= y < h,
                0 <= x <= w,
                w > 0 && h > 0,
                0 < w * h <= u32::MAX,
                nw * nh == w * h,
                (nw as int, nh as int) == rotated_dims(w as int, h as int, rotate),
                bpp == inferred_bpp(src@.len(), w, h),
                total == nw * nh * bpp,
                bpp * (w * h) <= src@.len(),
                src_len == src@.len(),
                dst@.len() == total,
                forall|i: int| 0 <= i < total ==> #[trigger] dst@[i] == if written_before(w, h, rotate, flip_h, flip_v, bpp as int, i, x as int, y as int, 0) {
                    transformed_byte(src@, w, h, rotate, flip_h, flip_v, i)
                } else {
                    0u8
                },
            decreases w - x,
        {
            proof {
                assert(y * w + x < w * h) by (nonlinear_arith)
                    requires 0 <= y < h, 0 <= x < w;
                assert((y * w + x) * bpp + bpp <= bpp * (w * h)) by (nonlinear_arith)
                    requires 0 <= y < h, 0 <= x < w, bpp >= 0;
            }
            let src_off = ((y * w + x) as usize) * bpp;
            let (dx, dy) = match rotate % 4 {
                0 => (x, y),
                1 => (y, w - 1 - x),
                2 => (w - 1 - x, h - 1 - y),
                _ => (h - 1 - y, x),
            };
            let dx = if flip_h { nw - 1 - dx } else { dx };
            let dy = if flip_v { nh - 1 - dy } else { dy };
            proof {
                lemma_dest_source_inverse(w as int, h as int, rotate, flip_h, flip_v, x as int, y as int);
                assert((dx as int, dy as int) == dest_of(w as int, h as int, rotate, flip_h, flip_v, x as int, y as int));
                assert(dy * nw + dx < nw * nh) by (nonlinear_arith)
                    requires 0 <= dy < nh, 0 <= dx < nw;
                assert((dy * nw + dx) * bpp + bpp <= (nw * nh) * bpp) by (nonlinear_arith)
                    requires 0 <= dy < nh, 0 <= dx < nw, bpp >= 0;
            }
            let dst_off = ((dy * nw + dx) as usize) * bpp;
            let mut k: usize = 0;
            while k < bpp
                invariant
                    0 <= y < h,
                    0 <= x < w,
                    0 <= k <= bpp,
                    w > 0 && h > 0,
                    0 < w * h <= u32::MAX,
                    nw * nh == w * h,
                    (nw as int, nh as int) == rotated_dims(w as int, h as int, rotate),
                    bpp == inferred_bpp(src@.len(), w, h),
                    total == nw * nh * bpp,
                    bpp * (w * h) <= src@.len(),
                    src_len == src@.len(),
                    dst@.len() == total,
                    0 <= dx < nw,
                    0 <= dy < nh,
                    (dx as int, dy as int) == dest_of(w as int, h as int, rotate, flip_h, flip_v, x as int, y as int),
                    src_off == (y * w + x) * bpp,
                    dst_off == (dy * nw + dx) * bpp,
                    src_off + bpp <= src@.len(),
                    dst_off + bpp <= total,
                    dy * nw + dx < nw * nh,
                    forall|i: int| 0 <= i < total ==> #[trigger] dst@[i] == if written_before(w, h, rotate, flip_h, flip_v, bpp as int, i, x as int, y as int, k as int) {
                        transformed_byte(src@, w, h, rotate, flip_h, flip_v, i)
                    } else {
                        0u8
                    },
                decreases bpp - k,
            {
                let ghost j = (dst_off + k) as int;
                let ghost old_dst = dst@;
                proof {
                    let pj = (dy * nw + dx) as int;
                    lemma_join(pj, k as int, bpp as int, (nw * nh) as int);
                    lemma_join(dy as int, dx as int, nw as int, nh as int);
                    assert(pj == dy * nw + dx);
                    lemma_dest_source_inverse(w as int, h as int, rotate, flip_h, flip_v, x as int, y as int);
                    assert(transformed_byte(src@, w, h, rotate, flip_h, flip_v, j)
                        == src@[src_off + k]);
                    assert forall|i: int| 0 <= i < total && i != j implies
                        written_before(w, h, rotate, flip_h, flip_v, bpp as int, i, x as int, y as int, k + 1)
                        == written_before(w, h, rotate, flip_h, flip_v, bpp as int, i, x as int, y as int, k as int)
                    by {
                        let p = i / (bpp as int);
                        lemma_split(i, bpp as int, (nw * nh) as int);
                        lemma_split(p, nw as int, nh as int);
                        let (sx, sy) = source_of(w as int, h as int, rotate, flip_h, flip_v, p % (nw as int), p / (nw as int));
                        if sx == x && sy == y && i % (bpp as int) == k {
                            lemma_source_dest_inverse(w as int, h as int, rotate, flip_h, flip_v, p % (nw as int), p / (nw as int));
                            assert(p == pj);
                            assert(i == j);
                        }
                    }
                    assert(written_before(w, h, rotate, flip_h, flip_v, bpp as int, j, x as int, y as int, k + 1));
                }
                let byte = src[src_off + k];
                dst.set(dst_off + k, byte);
                k = k + 1;
            }
            proof {
                assert forall|i: int| 0 <= i < total implies
                    written_before(w, h, rotate, flip_h, flip_v, bpp as int, i, x + 1, y as int, 0)
                    == written_before(w, h, rotate, flip_h, flip_v, bpp as int, i, x as int, y as int, bpp as int)
                by {
                    lemma_split(i, bpp as int, (nw * nh) as int);
                }
            }
            x = x + 1;
        }
        proof {
            assert forall|i: int| 0 <= i < total implies
                written_before(w, h, rotate, flip_h, flip_v, bpp as int, i, 0, y + 1, 0)
                == written_before(w, h, rotate, flip_h, flip_v, bpp as int, i, w as int, y as int, 0)
            by {
                let p = i / (bpp as int);
                lemma_split(i, bpp as int, (nw * nh) as int);
                lemma_split(p, nw as int, nh as int);
                lemma_source_dest_inverse(w as int, h as int, rotate, flip_h, flip_v, p % (nw as int), p / (nw as int));
            }
        }
        y = y + 1;
    }
    proof {
        assert forall|i: int| 0 <= i < total implies
            written_before(w, h, rotate, flip_h, flip_v, bpp as int, i, 0, h as int, 0)
        by {
            let p = i / (bpp as int);
            lemma_split(i, bpp as int, (nw * nh) as int);
            lemma_split(p, nw as int, nh as int);
            lemma_source_dest_inverse(w as int, h as int, rotate, flip_h, flip_v, p % (nw as int), p / (nw as int));
        }
    }
    assert(dst@ =~= transformed(src@, w, h, rotate, flip_h, flip_v));
    dst
}

} // verus!
