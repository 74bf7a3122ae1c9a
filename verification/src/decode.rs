//! PNG reading and writing: header and frame decoding through the `png`
//! crate, conversion of decoded frames to RGBA8 and RGBA16, box-averaged
//! thumbnails, and base64 data URLs.

use vstd::prelude::*;
use png::Compression as PngLevel;
use crate::model::{LayerState, PngCompression};
use crate::boxsum::{box_sum, box_count, box_average, channel_box_sum, lemma_box_sum_bounds,
    lemma_box_average_bounds, lemma_row_major};

verus! {

/// The sample depth of an RGBA image to encode.
#[derive(Debug, Clone, Copy, PartialEq, Eq, Structural)]
pub enum SampleDepth {
    Eight,
    Sixteen,
}

/// The PNG bit depth of a sample depth.
pub open spec fn depth_code(depth: SampleDepth) -> u8 {
    match depth {
        SampleDepth::Eight => 8,
        SampleDepth::Sixteen => 16,
    }
}

/// Bytes per sample of a depth.
pub open spec fn depth_bytes(depth: SampleDepth) -> int {
    match depth {
        SampleDepth::Eight => 1,
        SampleDepth::Sixteen => 2,
    }
}

/// A frame as the decoder hands it out: its size, its PNG colour type code
/// (0 grey, 2 RGB, 3 indexed, 4 grey+alpha, 6 RGBA), its bit depth, and its
/// rows of samples, big-endian where a sample has two bytes.
#[derive(Debug, Clone)]
pub struct PngFrame {
    pub width: u32,
    pub height: u32,
    pub color: u8,
    pub depth: u8,
    pub data: Vec<u8>,
}

/// Samples per pixel of a PNG colour type code.
pub open spec fn color_samples(color: u8) -> int {
    if color == 0 || color == 3 {
        1
    } else if color == 2 {
        3
    } else if color == 4 {
        2
    } else {
        4
    }
}

/// Whether `color` is one of the five PNG colour type codes.
pub open spec fn valid_color(color: u8) -> bool {
    color == 0 || color == 2 || color == 3 || color == 4 || color == 6
}

/// Bytes in one row of `width` pixels of the given colour type and depth.
pub open spec fn row_bytes(width: int, color: u8, depth: int) -> int {
    (width * color_samples(color) * depth + 7) / 8
}

/// What a decoder hands out for a frame: a valid colour type and exactly
/// `height` rows of samples.
pub open spec fn frame_well_formed(width: u32, height: u32, color: u8, depth: u8, len: nat) -> bool {
    &&& valid_color(color)
    &&& len == height * row_bytes(width as int, color, depth as int)
}

/// Header of the PNG held in `bytes` (width, height, bit depth), as the
/// `png` crate reads it with no transformation; `None` where it refuses.
pub uninterp spec fn png_info_of(bytes: Seq<u8>) -> Option<(u32, u32, u8)>;

/// First frame of the PNG held in `bytes`, decoded by the `png` crate with
/// its EXPAND transformation: `None` where reading the header fails,
/// `Some(None)` where decoding the frame fails, else width, height, colour
/// type code, bit depth and samples.
pub uninterp spec fn png_expanded_frame_of(bytes: Seq<u8>) -> Option<Option<(u32, u32, u8, u8, Seq<u8>)>>;

/// The text of the error with which the `png` crate's `read_info` refuses
/// `bytes` (no transformation set).
pub uninterp spec fn png_info_error_of(bytes: Seq<u8>) -> Seq<char>;

/// The text of the error with which the `png` crate's `read_info` refuses
/// `bytes` under the EXPAND transformation.
pub uninterp spec fn png_header_error_of(bytes: Seq<u8>) -> Seq<char>;

/// The text of the error with which decoding the first frame of `bytes`
/// (under EXPAND) fails once the header was read.
pub uninterp spec fn png_frame_error_of(bytes: Seq<u8>) -> Seq<char>;

/// The text of the error with which the `png` crate's encoder refuses RGBA
/// samples `data` of the given size and depth.
pub uninterp spec fn png_encoding_error(width: u32, height: u32, depth: SampleDepth, data: Seq<u8>) -> Seq<char>;

/// The PNG file that the `png` crate writes for RGBA samples `data` of the
/// given size and depth, with the encoder's default settings.
pub uninterp spec fn png_encoding_default(width: u32, height: u32, depth: SampleDepth, data: Seq<u8>) -> Seq<u8>;

/// The PNG file that the `png` crate writes for RGBA samples `data` of the
/// given size and depth at compression level `level`.
pub uninterp spec fn png_encoding_at(width: u32, height: u32, depth: SampleDepth, level: PngCompression, data: Seq<u8>) -> Seq<u8>;

/// Digit `v` (0..64) of the standard base64 alphabet: `A`-`Z`, `a`-`z`,
/// `0`-`9`, `+`, `/`.
pub open spec fn base64_digit(v: int) -> char {
    if v < 26 {
        (65 + v) as char
    } else if v < 52 {
        (97 + v - 26) as char
    } else if v < 62 {
        (48 + v - 52) as char
    } else if v == 62 {
        '+'
    } else {
        '/'
    }
}

/// The standard base64 encoding of `b`, with padding: each group of three
/// bytes gives four digits of six bits each, most significant first; a last
/// group of one or two bytes gives two or three digits and `=` up to four.
pub open spec fn base64_standard(b: Seq<u8>) -> Seq<char>
    decreases b.len(),
{
    if b.len() == 0 {
        Seq::empty()
    } else if b.len() == 1 {
        let b0 = b[0] as int;
        seq![base64_digit(b0 / 4), base64_digit((b0 % 4) * 16), '=', '=']
    } else if b.len() == 2 {
        let (b0, b1) = (b[0] as int, b[1] as int);
        seq![base64_digit(b0 / 4), base64_digit((b0 % 4) * 16 + b1 / 16), base64_digit((b1 % 16) * 4), '=']
    } else {
        let (b0, b1, b2) = (b[0] as int, b[1] as int, b[2] as int);
        seq![
            base64_digit(b0 / 4),
            base64_digit((b0 % 4) * 16 + b1 / 16),
            base64_digit((b1 % 16) * 4 + b2 / 64),
            base64_digit(b2 % 64),
        ] + base64_standard(b.subrange(3, b.len() as int))
    }
}

/// Whether the encoder accepts RGBA samples of this size and length.
pub open spec fn rgba_encodable(width: u32, height: u32, depth: SampleDepth, len: nat) -> bool {
    &&& width > 0
    &&& height > 0
    &&& len == width * height * 4 * depth_bytes(depth)
}

/// Reads the PNG header with `png::Decoder::new(..).read_info()` and hands
/// out width, height and bit depth (`BitDepth as u8`). Claims that the
/// result is the named `png_info_of` of the bytes, and the error text (the
/// decoder's `Display` of its error) the named `png_info_error_of`.
#[verifier::external_body]
fn png_read_info(bytes: &[u8]) -> (res: Result<(u32, u32, u8), String>)
    ensures
        res is Ok <==> png_info_of(bytes@) is Some,
        res matches Ok(v) ==> png_info_of(bytes@) == Some(v),
        res matches Err(m) ==> m@ == png_info_error_of(bytes@),
{
    match png::Decoder::new(std::io::Cursor::new(bytes)).read_info() {
        Ok(reader) => Ok((reader.info().width, reader.info().height, reader.info().bit_depth as u8)),
        Err(e) => Err(e.to_string()),
    }
}

/// Decodes the first frame with `png::Decoder` under
/// `Transformations::EXPAND`: `read_info`, a buffer of
/// `output_buffer_size()` bytes, then `next_frame`. Outer `Err`: `read_info`
/// failed, with the text named `png_header_error_of` (it refuses an image
/// whose buffer would not fit the address space, so `output_buffer_size` is
/// then known); inner `Err`: `next_frame` failed, with the text named
/// `png_frame_error_of`. Claims that a frame is the named
/// `png_expanded_frame_of` of the bytes, and what the crate's source shows
/// of it: the header refuses zero width or height, EXPAND widens depths
/// below 8 to 8 and leaves 16, turns indexed colour into RGB or RGBA (so the
/// frame is never indexed), and the buffer holds exactly `height` rows
/// of `ceil(width * samples * depth / 8)` bytes of the output colour type.
#[verifier::external_body]
fn png_decode_expanded(bytes: &[u8]) -> (res: Result<Result<PngFrame, String>, String>)
    ensures
        res is Ok <==> png_expanded_frame_of(bytes@) is Some,
        res matches Ok(inner) ==> (inner is Ok <==> png_expanded_frame_of(bytes@).unwrap() is Some),
        res matches Err(m) ==> m@ == png_header_error_of(bytes@),
        res matches Ok(Err(m)) ==> m@ == png_frame_error_of(bytes@),
        res matches Ok(Ok(f)) ==> png_expanded_frame_of(bytes@) == Some(
            Some((f.width, f.height, f.color, f.depth, f.data@)),
        ),
        res matches Ok(Ok(f)) ==> f.width > 0 && f.height > 0 && (f.depth == 8 || f.depth == 16) && f.color != 3
            && frame_well_formed(f.width, f.height, f.color, f.depth, f.data@.len()),
{
    let mut dec = png::Decoder::new(std::io::Cursor::new(bytes));
    dec.set_transformations(png::Transformations::EXPAND);
    let mut reader = match dec.read_info() {
        Ok(r) => r,
        Err(e) => return Err(e.to_string()),
    };
    let (width, height) = (reader.info().width, reader.info().height);
    let mut data = vec![0u8; reader.output_buffer_size().unwrap()];
    match reader.next_frame(&mut data) {
        Ok(info) => Ok(Ok(PngFrame { width, height, color: info.color_type as u8, depth: info.bit_depth as u8, data })),
        Err(e) => Ok(Err(e.to_string())),
    }
}

/// Encodes RGBA samples with `png::Encoder` at its default settings
/// (`write_header` then `write_image_data`). Claims: success exactly when
/// the size is non-zero and `data` holds `width * height` pixels (the other
/// errors of the encoder come from its writer, here a `Vec`, which does not
/// fail), the bytes are the named `png_encoding_default`, and the error text
/// the named `png_encoding_error` (the compression level plays no part in
/// refusing). It also claims what a PNG codec is for: where the decoder,
/// under EXPAND, does decode the file it wrote (its memory limits may refuse
/// a large one), the frame is the RGBA samples that were written, at the
/// size and depth they were written.
#[verifier::external_body]
fn png_encode_rgba(width: u32, height: u32, depth: SampleDepth, data: &[u8]) -> (res: Result<Vec<u8>, String>)
    requires
        width * height * 4 * depth_bytes(depth) <= usize::MAX,
    ensures
        res is Ok <==> rgba_encodable(width, height, depth, data@.len()),
        res matches Ok(b) ==> b@ == png_encoding_default(width, height, depth, data@),
        res matches Err(m) ==> m@ == png_encoding_error(width, height, depth, data@),
        res matches Ok(b) ==> (png_expanded_frame_of(b@) matches Some(Some(f)) ==> f == (
            width,
            height,
            6u8,
            depth_code(depth),
            data@,
        )),
{
    let mut buf = Vec::new();
    let mut enc = png::Encoder::new(&mut buf, width, height);
    enc.set_color(png::ColorType::Rgba);
    enc.set_depth(match depth { SampleDepth::Eight => png::BitDepth::Eight, SampleDepth::Sixteen => png::BitDepth::Sixteen });
    let written = match enc.write_header() {
        Ok(mut writer) => writer.write_image_data(data),
        Err(e) => Err(e),
    };
    match written {
        Ok(()) => Ok(buf),
        Err(e) => Err(e.to_string()),
    }
}

/// As `png_encode_rgba`, after `set_compression(level)`; the bytes are the
/// named `png_encoding_at`, and as there, where the decoder does decode the
/// file, it reads back the samples that were written (the level changes
/// only how the data is deflated).
#[verifier::external_body]
pub(crate) fn png_encode_rgba_at(width: u32, height: u32, depth: SampleDepth, level: PngCompression, data: &[u8]) -> (res: Result<Vec<u8>, String>)
    requires
        width * height * 4 * depth_bytes(depth) <= usize::MAX,
    ensures
        res is Ok <==> rgba_encodable(width, height, depth, data@.len()),
        res matches Ok(b) ==> b@ == png_encoding_at(width, height, depth, level, data@),
        res matches Err(m) ==> m@ == png_encoding_error(width, height, depth, data@),
        res matches Ok(b) ==> (png_expanded_frame_of(b@) matches Some(Some(f)) ==> f == (
            width,
            height,
            6u8,
            depth_code(depth),
            data@,
        )),
{
    let mut buf = Vec::new();
    let mut enc = png::Encoder::new(&mut buf, width, height);
    enc.set_color(png::ColorType::Rgba);
    enc.set_depth(match depth { SampleDepth::Eight => png::BitDepth::Eight, SampleDepth::Sixteen => png::BitDepth::Sixteen });
    enc.set_compression(match level {
        PngCompression::NoCompression => PngLevel::NoCompression,
        PngCompression::Fastest => PngLevel::Fastest,
        PngCompression::Fast => PngLevel::Fast,
        PngCompression::Balanced => PngLevel::Balanced,
        PngCompression::High => PngLevel::High,
    });
    let written = match enc.write_header() { Ok(mut writer) => writer.write_image_data(data), Err(e) => Err(e) };
    match written { Ok(()) => Ok(buf), Err(e) => Err(e.to_string()) }
}

/// `base64::engine::general_purpose::STANDARD.encode(bytes)`, claimed to be
/// the standard base64 of the bytes as `base64_standard` spells it out.
#[verifier::external_body]
fn base64_encode(bytes: &[u8]) -> (res: String)
    ensures
        res@ == base64_standard(bytes@),
{
    base64::Engine::encode(&base64::engine::general_purpose::STANDARD, bytes)
}


/// Whether `p` is a prefix of `s`.
pub open spec fn starts_with(s: Seq<char>, p: Seq<char>) -> bool {
    p.len() <= s.len() && s.subrange(0, p.len() as int) == p
}

/// `prefix` followed by `detail`.
fn prefixed(prefix: &str, detail: &str) -> (res: String)
    ensures
        res@ == prefix@ + detail@,
        starts_with(res@, prefix@),
{
    let mut res = String::from_str(prefix);
    res.append(detail);
    assert(res@.subrange(0, prefix@.len() as int) =~= prefix@);
    res
}

/// Whether the RGBA8 converter takes frames of this colour type and bit
/// depth: grey, RGB, grey+alpha or RGBA, with 8- or 16-bit samples.
pub open spec fn rgba8_format(color: u8, depth: u8) -> bool {
    (depth == 8 || depth == 16) && (color == 0 || color == 2 || color == 4 || color == 6)
}

/// Channel `c` (red, green, blue, alpha) of pixel `p` of a frame, as an
/// 8-bit value: a 16-bit sample gives its high byte, grey is spread over the
/// three colour channels, and alpha is 255 where the frame has none.
pub open spec fn rgba8_channel(color: u8, depth: u8, data: Seq<u8>, p: int, c: int) -> u8 {
    let n = color_samples(color);
    let b: int = if depth == 16 { 2 } else { 1 };
    let k: int = if color == 0 || color == 4 { if c < 3 { 0 } else { 1 } } else { c };
    if c == 3 && (color == 0 || color == 2) {
        255u8
    } else {
        data[(p * n + k) * b]
    }
}

/// The RGBA8 pixels of a decoded frame, `w * h * 4` bytes, each pixel
/// expanded to RGBA from its own samples (see `rgba8_channel`); `None` for
/// a format the converter does not take.
pub open spec fn rgba8_pixels(w: u32, h: u32, color: u8, depth: u8, data: Seq<u8>) -> Option<Seq<u8>> {
    if rgba8_format(color, depth) {
        Some(Seq::new((w * h * 4) as nat, |i: int| rgba8_channel(color, depth, data, i / 4, i % 4)))
    } else {
        None
    }
}

/// An RGBA8 frame converts to its own samples.
pub proof fn lemma_rgba8_pixels_of_rgba8(w: u32, h: u32, data: Seq<u8>)
    requires
        data.len() == w * h * 4,
    ensures
        rgba8_pixels(w, h, 6, 8, data) == Some(data),
{
    let p = rgba8_pixels(w, h, 6, 8, data).unwrap();
    assert forall|i: int| 0 <= i < p.len() implies #[trigger] p[i] == data[i] by {
        assert((i / 4 * 4 + i % 4) * 1 == i);
    }
    assert(p =~= data);
}

/// The RGBA16 samples of a decoded frame: only RGBA frames are supported;
/// 16-bit samples are read big-endian, 8-bit samples keep their 0..255
/// range; `w * h * 4` samples in all.
pub open spec fn rgba16_samples(w: u32, h: u32, color: u8, depth: u8, data: Seq<u8>) -> Option<Seq<u16>> {
    if color != 6 {
        None
    } else if depth == 16 {
        Some(Seq::new((w * h * 4) as nat, |i: int| if i < data.len() / 2 {
            (data[2 * i] * 256 + data[2 * i + 1]) as u16
        } else {
            0u16
        }))
    } else {
        Some(Seq::new((w * h * 4) as nat, |i: int| if i < data.len() { data[i] as u16 } else { 0u16 }))
    }
}

/// Samples widened from an 8-bit RGBA frame stay in the 0..=255 range.
pub proof fn law_rgba16_of_8bit_keeps_range(w: u32, h: u32, depth: u8, data: Seq<u8>)
    requires
        depth != 16,
    ensures
        rgba16_samples(w, h, 6, depth, data) matches Some(p) && forall|i: int| 0 <= i < p.len() ==> #[trigger] p[i] <= 255,
{
}

/// Message for a pixel format that the converters do not take.
pub open spec fn unsupported_format_text() -> Seq<char> {
    "不支持的像素格式"@
}

/// Message for a decoded image whose `width * height * 4` exceeds `u32`.
pub open spec fn oversized_text() -> Seq<char> {
    "图像尺寸超出范围"@
}

proof fn lemma_sample_offset(p: int, n: int, b: int)
    ensures
        (p * n + 0) * b == p * n * b,
        (p * n + 1) * b == p * n * b + b,
        (p * n + 2) * b == p * n * b + 2 * b,
        (p * n + 3) * b == p * n * b + 3 * b,
{
    assert((p * n + 1) * b == p * n * b + b) by (nonlinear_arith);
    assert((p * n + 2) * b == p * n * b + 2 * b) by (nonlinear_arith);
    assert((p * n + 3) * b == p * n * b + 3 * b) by (nonlinear_arith);
}

/// Converts a decoded frame to RGBA8: grey, RGB and grey+alpha pixels are
/// expanded to RGBA (alpha 255 where the frame has none), 16-bit samples
/// keep their high byte.
pub fn frame_to_rgba8(frame: PngFrame) -> (res: Result<Vec<u8>, String>)
    requires
        frame.width * frame.height * 4 <= u32::MAX,
        frame_well_formed(frame.width, frame.height, frame.color, frame.depth, frame.data@.len()),
    ensures
        match rgba8_pixels(frame.width, frame.height, frame.color, frame.depth, frame.data@) {
            Some(p) => res matches Ok(d) && d@ == p,
            None => res matches Err(m) && m@ == unsupported_format_text(),
        },
        res matches Ok(d) ==> d@.len() == frame.width * frame.height * 4,
{
    let w = frame.width;
    let h = frame.height;
    let color = frame.color;
    let depth = frame.depth;
    if !((depth == 8 || depth == 16) && (color == 0 || color == 2 || color == 4 || color == 6)) {
        return Err(String::from_str("不支持的像素格式"));
    }
    let n: usize = if color == 0 { 1 } else if color == 2 { 3 } else if color == 4 { 2 } else { 4 };
    let b: usize = if depth == 16 { 2 } else { 1 };
    let np = (w * h) as usize;
    let buf = frame.data;
    let ghost data = buf@;
    proof {
        assert(n as int == color_samples(color));
        assert(w * n * depth == 8 * (w * n * b)) by (nonlinear_arith)
            requires depth as int == 8 * b;
        assert(row_bytes(w as int, color, depth as int) == w * n * b);
        assert(data.len() == np * n * b) by (nonlinear_arith)
            requires data.len() == h * (w * n * b), np == w * h;
    }
    let blen = buf.len();
    let mut out: Vec<u8> = Vec::new();
    let mut p: usize = 0;
    while p < np
        invariant
            blen == data.len(),
            np == w * h,
            w * h * 4 <= u32::MAX,
            n as int == color_samples(color),
            b as int == (if depth == 16 { 2int } else { 1int }),
            1 <= n <= 4,
            1 <= b <= 2,
            rgba8_format(color, depth),
            data == buf@,
            data.len() == np * n * b,
            p <= np,
            out@.len() == 4 * p,
            forall|q: int, c: int| 0 <= q < p && 0 <= c < 4 ==> #[trigger] out@[4 * q + c] == rgba8_channel(color, depth, data, q, c),
        decreases np - p,
    {
        proof {
            assert(p * n * b + n * b <= np * n * b) by (nonlinear_arith)
                requires p < np, n >= 1, b >= 1;
            assert(p * n <= p * n * b) by (nonlinear_arith)
                requires p >= 0, n >= 1, b >= 1;
            lemma_sample_offset(p as int, n as int, b as int);
        }
        let base = p * n * b;
        let v0 = buf[base];
        let (r, g, bl, a) = if color == 0 {
            (v0, v0, v0, 255u8)
        } else if color == 4 {
            (v0, v0, v0, buf[base + b])
        } else if color == 2 {
            (v0, buf[base + b], buf[base + 2 * b], 255u8)
        } else {
            (v0, buf[base + b], buf[base + 2 * b], buf[base + 3 * b])
        };
        let ghost before = out@;
        out.push(r);
        out.push(g);
        out.push(bl);
        out.push(a);
        proof {
            assert(rgba8_channel(color, depth, data, p as int, 0) == r);
            assert(rgba8_channel(color, depth, data, p as int, 1) == g);
            assert(rgba8_channel(color, depth, data, p as int, 2) == bl);
            assert(rgba8_channel(color, depth, data, p as int, 3) == a);
            assert forall|q: int, c: int| 0 <= q < p + 1 && 0 <= c < 4 implies #[trigger] out@[4 * q + c] == rgba8_channel(color, depth, data, q, c) by {
                if q < p {
                    assert(out@[4 * q + c] == before[4 * q + c]);
                }
            }
        }
        p = p + 1;
    }
    proof {
        let target = rgba8_pixels(w, h, color, depth, data).unwrap();
        assert forall|i: int| 0 <= i < out@.len() implies #[trigger] out@[i] == target[i] by {
            let q = i / 4;
            let c = i % 4;
            assert(i == 4 * q + c);
            assert(out@[4 * q + c] == rgba8_channel(color, depth, data, q, c));
        }
        assert(out@ =~= target);
    }
    Ok(out)
}

/// Converts a decoded frame to RGBA16 samples.
pub fn frame_to_rgba16(frame: PngFrame) -> (res: Result<Vec<u16>, String>)
    requires
        frame.width * frame.height * 4 <= u32::MAX,
    ensures
        match rgba16_samples(frame.width, frame.height, frame.color, frame.depth, frame.data@) {
            Some(p) => res matches Ok(d) && d@ == p,
            None => res matches Err(m) && m@ == unsupported_format_text(),
        },
{
    if frame.color != 6 {
        return Err(String::from_str("不支持的像素格式"));
    }
    let w = frame.width;
    let h = frame.height;
    let n = (w * h * 4) as usize;
    let buf = frame.data;
    let mut data = vec![0u16; n];
    if frame.depth == 16 {
        let blen = buf.len();
        let half = blen / 2;
        let m = if half < n { half } else { n };
        let mut i: usize = 0;
        while i < m
            invariant
                m <= n,
                m <= buf@.len() / 2,
                blen == buf@.len(),
                m == if buf@.len() / 2 < n { (buf@.len() / 2) as int } else { n as int },
                data@.len() == n,
                i <= m,
                forall|j: int| 0 <= j < n ==> #[trigger] data@[j] == if j < i {
                    (buf@[2 * j] * 256 + buf@[2 * j + 1]) as u16
                } else {
                    0u16
                },
            decreases m - i,
        {
            let v = (buf[2 * i] as u16) * 256 + (buf[2 * i + 1] as u16);
            data.set(i, v);
            i = i + 1;
        }
        proof {
            let p = rgba16_samples(w, h, frame.color, frame.depth, buf@).unwrap();
            assert(data@ =~= p);
        }
    } else {
        let len = buf.len();
        let m = if len < n { len } else { n };
        let mut i: usize = 0;
        while i < m
            invariant
                m <= n,
                m <= buf@.len(),
                m == if buf@.len() < n { buf@.len() as int } else { n as int },
                data@.len() == n,
                i <= m,
                forall|j: int| 0 <= j < n ==> #[trigger] data@[j] == if j < i { buf@[j] as u16 } else { 0u16 },
            decreases m - i,
        {
            data.set(i, buf[i] as u16);
            i = i + 1;
        }
        proof {
            let p = rgba16_samples(w, h, frame.color, frame.depth, buf@).unwrap();
            assert(data@ =~= p);
        }
    }
    Ok(data)
}


/// The RGBA8 image that `load_png_rgba8` yields for the file `bytes`:
/// width, height and pixels; `None` where it fails.
pub open spec fn decoded_rgba8(bytes: Seq<u8>) -> Option<(u32, u32, Seq<u8>)> {
    match png_expanded_frame_of(bytes) {
        Some(Some((w, h, c, d, data))) => if w * h * 4 <= u32::MAX {
            match rgba8_pixels(w, h, c, d, data) {
                Some(p) => Some((w, h, p)),
                None => None,
            }
        } else {
            None
        },
        _ => None,
    }
}

/// The failure messages of the RGBA8 and RGBA16 loaders for `bytes`, given
/// whether the frame's format is supported by the loader.
pub open spec fn load_error(bytes: Seq<u8>, supported: bool, m: Seq<char>) -> bool {
    match png_expanded_frame_of(bytes) {
        None => m == "解码失败: "@ + png_header_error_of(bytes),
        Some(None) => m == "解码帧失败: "@ + png_frame_error_of(bytes),
        Some(Some((w, h, c, d, data))) => if w * h * 4 > u32::MAX {
            m == oversized_text()
        } else {
            !supported && m == unsupported_format_text()
        },
    }
}

/// Whether the decoded frame of `bytes` has a format the RGBA8 loader takes.
pub open spec fn rgba8_supported(bytes: Seq<u8>) -> bool {
    match png_expanded_frame_of(bytes) {
        Some(Some((w, h, c, d, data))) => rgba8_pixels(w, h, c, d, data) is Some,
        _ => false,
    }
}

/// The RGBA16 image that `load_png_rgba16` yields for the file `bytes`.
pub open spec fn decoded_rgba16(bytes: Seq<u8>) -> Option<(u32, u32, Seq<u16>)> {
    match png_expanded_frame_of(bytes) {
        Some(Some((w, h, c, d, data))) => if w * h * 4 <= u32::MAX {
            match rgba16_samples(w, h, c, d, data) {
                Some(p) => Some((w, h, p)),
                None => None,
            }
        } else {
            None
        },
        _ => None,
    }
}

/// The failure messages of the RGBA16 loader for `bytes`: a frame that is
/// not RGBA is refused before its size is looked at.
pub open spec fn load16_error(bytes: Seq<u8>, m: Seq<char>) -> bool {
    match png_expanded_frame_of(bytes) {
        None => m == "解码失败: "@ + png_header_error_of(bytes),
        Some(None) => m == "解码帧失败: "@ + png_frame_error_of(bytes),
        Some(Some((w, h, c, d, data))) => if c != 6 {
            m == unsupported_format_text()
        } else {
            w * h * 4 > u32::MAX && m == oversized_text()
        },
    }
}

/// Whether `w * h * 4` fits a `u32`.
fn fits_rgba_u32(w: u32, h: u32) -> (b: bool)
    ensures
        b == (w * h * 4 <= u32::MAX),
{
    proof {
        assert((w as u64) * (h as u64) <= 0xFFFF_FFFE_0000_0001u64) by (nonlinear_arith)
            requires w <= u32::MAX, h <= u32::MAX;
    }
    let wh = (w as u64) * (h as u64);
    wh <= 1073741823
}

/// Reads the PNG header of the file `bytes`: width, height, and whether the
/// samples are 16-bit.
pub fn load_png_meta(bytes: &[u8]) -> (res: Result<(u32, u32, bool), String>)
    ensures
        match res {
            Ok(v) => png_info_of(bytes@) matches Some((w, h, d)) && v == (w, h, d == 16),
            Err(m) => png_info_of(bytes@) is None && m@ == "读取PNG信息失败: "@ + png_info_error_of(bytes@),
        },
{
    match png_read_info(bytes) {
        Ok((w, h, d)) => Ok((w, h, d == 16)),
        Err(e) => Err(prefixed("读取PNG信息失败: ", e.as_str())),
    }
}

/// The layer `state` with its width and height read from the header of its
/// PNG file `bytes`; every other field is kept.
pub fn decode_meta_for_layer(state: LayerState, bytes: &[u8]) -> (res: Result<LayerState, String>)
    ensures
        match png_info_of(bytes@) {
            Some((w, h, d)) => res matches Ok(l) && l == (LayerState { width: w, height: h, ..state }),
            None => res matches Err(m) && m@ == "读取PNG信息失败: "@ + png_info_error_of(bytes@),
        },
{
    match load_png_meta(bytes) {
        Ok((w, h, _)) => Ok(LayerState { width: w, height: h, ..state }),
        Err(m) => Err(m),
    }
}

/// Decodes the file `bytes` to RGBA8 (16-bit samples keep their high byte;
/// grey and palette images are expanded by the decoder).
pub fn load_png_rgba8(bytes: &[u8]) -> (res: Result<(u32, u32, Vec<u8>), String>)
    ensures
        match res {
            Ok((w, h, d)) => decoded_rgba8(bytes@) == Some((w, h, d@)) && d@.len() == w * h * 4 && w * h * 4 <= u32::MAX
                && w > 0 && h > 0,
            Err(m) => decoded_rgba8(bytes@) is None && load_error(bytes@, rgba8_supported(bytes@), m@),
        },
{
    match png_decode_expanded(bytes) {
        Err(e) => Err(prefixed("解码失败: ", e.as_str())),
        Ok(Err(e)) => Err(prefixed("解码帧失败: ", e.as_str())),
        Ok(Ok(frame)) => {
            let w = frame.width;
            let h = frame.height;
            if !fits_rgba_u32(w, h) {
                return Err(String::from_str("图像尺寸超出范围"));
            }
            match frame_to_rgba8(frame) {
                Ok(d) => Ok((w, h, d)),
                Err(m) => Err(m),
            }
        },
    }
}

/// Decodes the file `bytes` to RGBA16 samples (8-bit samples keep their
/// 0..255 range; 16-bit samples are kept whole).
pub fn load_png_rgba16(bytes: &[u8]) -> (res: Result<(u32, u32, Vec<u16>), String>)
    ensures
        match res {
            Ok((w, h, d)) => decoded_rgba16(bytes@) == Some((w, h, d@)) && d@.len() == w * h * 4 && w * h * 4 <= u32::MAX,
            Err(m) => decoded_rgba16(bytes@) is None && load16_error(bytes@, m@),
        },
{
    match png_decode_expanded(bytes) {
        Err(e) => Err(prefixed("解码失败: ", e.as_str())),
        Ok(Err(e)) => Err(prefixed("解码帧失败: ", e.as_str())),
        Ok(Ok(frame)) => {
            let w = frame.width;
            let h = frame.height;
            if frame.color != 6 {
                return Err(String::from_str("不支持的像素格式"));
            }
            if !fits_rgba_u32(w, h) {
                return Err(String::from_str("图像尺寸超出范围"));
            }
            match frame_to_rgba16(frame) {
                Ok(d) => Ok((w, h, d)),
                Err(m) => Err(m),
            }
        },
    }
}

/// `data:image/png;base64,` followed by the base64 of the PNG file.
pub fn rgba8_to_data_url(png_bytes: &[u8]) -> (res: String)
    ensures
        res@ == "data:image/png;base64,"@ + base64_standard(png_bytes@),
{
    let encoded = base64_encode(png_bytes);
    prefixed("data:image/png;base64,", encoded.as_str())
}

/// An RGBA8 PNG file of the given pixels (a test fixture).
pub fn make_png_rgba8(w: u32, h: u32, pixels: &[u8]) -> (res: Vec<u8>)
    requires
        rgba_encodable(w, h, SampleDepth::Eight, pixels@.len()),
    ensures
        res@ == png_encoding_default(w, h, SampleDepth::Eight, pixels@),
        w * h * 4 <= u32::MAX && decoded_rgba8(res@) is Some ==> decoded_rgba8(res@) == Some((w, h, pixels@)),
{
    let n = pixels.len();
    assert(n == pixels@.len());
    match png_encode_rgba(w, h, SampleDepth::Eight, pixels) {
        Ok(b) => {
            proof {
                if w * h * 4 <= u32::MAX && decoded_rgba8(b@) is Some {
                    lemma_rgba8_pixels_of_rgba8(w, h, pixels@);
                }
            }
            b
        },
        Err(_) => Vec::new(),
    }
}

/// The big-endian bytes of 16-bit samples.
pub open spec fn be_bytes(samples: Seq<u16>) -> Seq<u8> {
    Seq::new(2 * samples.len(), |i: int| if i % 2 == 0 {
        (samples[i / 2] / 256) as u8
    } else {
        (samples[i / 2] % 256) as u8
    })
}

/// An RGBA16 PNG file of the given samples (a test fixture).
pub fn make_png_rgba16(w: u32, h: u32, pixels: &[u16]) -> (res: Vec<u8>)
    requires
        w > 0,
        h > 0,
        pixels@.len() == w * h * 4,
        w * h * 8 <= usize::MAX,
    ensures
        res@ == png_encoding_default(w, h, SampleDepth::Sixteen, be_bytes(pixels@)),
        w * h * 4 <= u32::MAX && decoded_rgba16(res@) is Some ==> decoded_rgba16(res@) == Some((w, h, pixels@)),
{
    let n = pixels.len();
    let mut bytes: Vec<u8> = Vec::new();
    let mut i: usize = 0;
    while i < n
        invariant
            n == pixels@.len(),
            2 * n <= usize::MAX,
            i <= n,
            bytes@ =~= be_bytes(pixels@.subrange(0, i as int)),
        decreases n - i,
    {
        let v = pixels[i];
        bytes.push((v / 256) as u8);
        bytes.push((v % 256) as u8);
        proof {
            let t = pixels@.subrange(0, i + 1);
            assert(be_bytes(t) =~= be_bytes(pixels@.subrange(0, i as int)).push((v / 256) as u8).push((v % 256) as u8)) by {
                assert forall|k: int| 0 <= k < 2 * i implies #[trigger] be_bytes(t)[k] == be_bytes(pixels@.subrange(0, i as int))[k] by {
                    assert(k / 2 < i) by (nonlinear_arith) requires 0 <= k < 2 * i;
                }
                assert((2 * i) / 2 == i && (2 * i + 1) / 2 == i && (2 * i) % 2 == 0 && (2 * i + 1) % 2 == 1) by (nonlinear_arith);
            }
        }
        i = i + 1;
    }
    assert(pixels@.subrange(0, n as int) =~= pixels@);
    match png_encode_rgba(w, h, SampleDepth::Sixteen, bytes.as_slice()) {
        Ok(b) => {
            proof {
                if w * h * 4 <= u32::MAX && decoded_rgba16(b@) is Some {
                    let data = be_bytes(pixels@);
                    let p = rgba16_samples(w, h, 6, 16, data).unwrap();
                    assert forall|i: int| 0 <= i < p.len() implies #[trigger] p[i] == pixels@[i] by {
                        assert((2 * i) / 2 == i && (2 * i + 1) / 2 == i && (2 * i) % 2 == 0 && (2 * i + 1) % 2 == 1) by (nonlinear_arith);
                        let v = pixels@[i];
                        assert((v / 256) as u8 * 256 + (v % 256) as u8 == v);
                    }
                    assert(p =~= pixels@);
                }
            }
            b
        },
        Err(_) => Vec::new(),
    }
}


/// The larger of two sizes.
pub open spec fn larger(a: u32, b: u32) -> int {
    if a >= b { a as int } else { b as int }
}

/// `a` capped at `b`.
pub open spec fn at_most(a: int, b: int) -> int {
    if a <= b { a } else { b }
}

/// Shrink factor that brings the long edge of a `w`×`h` image to at most
/// `max_edge`: the long edge divided by `max_edge`, rounded up, at least 1.
pub open spec fn shrink_factor(w: u32, h: u32, max_edge: u32) -> int {
    let s = (larger(w, h) + max_edge - 1) / (max_edge as int);
    if s > 1 { s } else { 1 }
}

/// Dividing both edges by `shrink_factor` brings each within `max_edge`,
/// and an image already within `max_edge` keeps its size.
pub proof fn law_shrink_within_limit(w: u32, h: u32, max_edge: u32)
    requires
        max_edge > 0,
    ensures
        (w as int) / shrink_factor(w, h, max_edge) <= max_edge,
        (h as int) / shrink_factor(w, h, max_edge) <= max_edge,
        larger(w, h) <= max_edge ==> shrink_factor(w, h, max_edge) == 1,
{
    let l = larger(w, h);
    let m = max_edge as int;
    let q = (l + m - 1) / m;
    let s = shrink_factor(w, h, max_edge);
    assert(q * m <= l + m - 1 < q * m + m) by (nonlinear_arith)
        requires m > 0, l >= 0, q == (l + m - 1) / m;
    assert(l <= s * m) by (nonlinear_arith)
        requires m > 0, q * m + m > l + m - 1, s >= q, s >= 1;
    assert((w as int) / s <= m) by (nonlinear_arith)
        requires s >= 1, 0 <= w <= l, l <= s * m;
    assert((h as int) / s <= m) by (nonlinear_arith)
        requires s >= 1, 0 <= h <= l, l <= s * m;
    if l <= m {
        assert(q <= 1) by (nonlinear_arith)
            requires m > 0, 0 <= l <= m, q * m <= l + m - 1;
    }
}

/// A thumbnail that can be made has a long edge of at most `max_edge`, and
/// neither edge is empty.
pub proof fn law_thumbnail_within_max_edge(bytes: Seq<u8>, max_edge: u32)
    requires
        max_edge > 0,
    ensures
        thumbnail_result(bytes, max_edge) matches Some((tw, th, file)) ==> 0 < tw <= max_edge && 0 < th <= max_edge,
{
    if let Some((w, h, p)) = decoded_rgba8(bytes) {
        law_shrink_within_limit(w, h, max_edge);
    }
}

/// Sum of channel `c` over the source cell of thumbnail pixel `(dx, dy)`:
/// the `s`×`s` square at `(dx * s, dy * s)`, clipped to the image.
pub open spec fn thumb_cell_sum(img: Seq<u8>, w: u32, h: u32, s: int, c: int, dx: int, dy: int) -> int {
    box_sum(img, w as int, c, dx * s, at_most((dx + 1) * s, w as int), dy * s, at_most((dy + 1) * s, h as int))
}

/// Where making the thumbnail overflows `u32` arithmetic: the rounding-up of
/// the long edge, or the sum of a channel over a cell.
pub open spec fn thumb_overflows(img: Seq<u8>, w: u32, h: u32, max_edge: u32) -> bool {
    let s = shrink_factor(w, h, max_edge);
    ||| larger(w, h) + max_edge - 1 > u32::MAX
    ||| exists|dx: int, dy: int, c: int|
        0 <= dx < (w as int) / s && 0 <= dy < (h as int) / s && 0 <= c < 4 && #[trigger] thumb_cell_sum(img, w, h, s, c, dx, dy)
            > u32::MAX
}

/// The thumbnail pixels: `(w / s)`×`(h / s)` RGBA8 pixels, each the
/// rounded-down average of its source cell.
pub open spec fn thumbnail_of(img: Seq<u8>, w: u32, h: u32, max_edge: u32) -> Seq<u8> {
    let s = shrink_factor(w, h, max_edge);
    let nw = (w as int) / s;
    let nh = (h as int) / s;
    Seq::new((nw * nh * 4) as nat, |i: int| {
        let p = i / 4;
        let dx = p % nw;
        let dy = p / nw;
        box_average(img, w as int, i % 4, dx * s, at_most((dx + 1) * s, w as int), dy * s, at_most((dy + 1) * s, h as int)) as u8
    })
}

/// Box-averaged thumbnail of an RGBA8 image whose long edge is at most
/// `max_edge` (rounded as `shrink_factor` says); `None` where the arithmetic
/// would overflow `u32`.
pub fn thumbnail_pixels(w: u32, h: u32, img: &[u8], max_edge: u32) -> (res: Option<(u32, u32, Vec<u8>)>)
    requires
        max_edge > 0,
        img@.len() == w * h * 4,
        w * h * 4 <= u32::MAX,
    ensures
        match res {
            None => thumb_overflows(img@, w, h, max_edge),
            Some((nw, nh, out)) => {
                &&& !thumb_overflows(img@, w, h, max_edge)
                &&& nw == (w as int) / shrink_factor(w, h, max_edge)
                &&& nh == (h as int) / shrink_factor(w, h, max_edge)
                &&& out@ == thumbnail_of(img@, w, h, max_edge)
            },
        },
{
    let m = if w >= h { w } else { h };
    if (m as u64) + (max_edge as u64) - 1 > u32::MAX as u64 {
        return None;
    }
    let s0 = (m + (max_edge - 1)) / max_edge;
    let scale = if s0 > 1 { s0 } else { 1 };
    let nw = w / scale;
    let nh = h / scale;
    let ghost s = scale as int;
    let ghost thumb = thumbnail_of(img@, w, h, max_edge);
    proof {
        assert(nw * scale <= w && nh * scale <= h) by (nonlinear_arith)
            requires scale > 0, nw == w / scale, nh == h / scale;
        assert(nw * nh <= w * h) by (nonlinear_arith)
            requires nw * scale <= w, nh * scale <= h, scale >= 1;
    }
    let mut out: Vec<u8> = Vec::new();
    let mut dy: u32 = 0;
    while dy < nh
        invariant
            max_edge > 0,
            img@.len() == w * h * 4,
            w * h * 4 <= u32::MAX,
            larger(w, h) + max_edge - 1 <= u32::MAX,
            scale == shrink_factor(w, h, max_edge),
            s == scale,
            thumb == thumbnail_of(img@, w, h, max_edge),
            nw == w / scale,
            nh == h / scale,
            nw * scale <= w,
            nh * scale <= h,
            nw * nh <= w * h,
            dy <= nh,
            out@.len() == dy * nw * 4,
            forall|j: int| 0 <= j < out@.len() ==> #[trigger] out@[j] == thumb[j],
            forall|j: int| 0 <= j < out@.len() ==> #[trigger] thumb_cell_sum(img@, w, h, s, j % 4, (j / 4) % (nw as int), (j / 4) / (nw as int)) <= u32::MAX,
        decreases nh - dy,
    {
        let mut dx: u32 = 0;
        while dx < nw
            invariant
                max_edge > 0,
                img@.len() == w * h * 4,
                w * h * 4 <= u32::MAX,
                larger(w, h) + max_edge - 1 <= u32::MAX,
                scale == shrink_factor(w, h, max_edge),
                s == scale,
                thumb == thumbnail_of(img@, w, h, max_edge),
                nw == w / scale,
                nh == h / scale,
                nw * scale <= w,
                nh * scale <= h,
                nw * nh <= w * h,
                dy < nh,
                dx <= nw,
                out@.len() == (dy * nw + dx) * 4,
                forall|j: int| 0 <= j < out@.len() ==> #[trigger] out@[j] == thumb[j],
                forall|j: int| 0 <= j < out@.len() ==> #[trigger] thumb_cell_sum(img@, w, h, s, j % 4, (j / 4) % (nw as int), (j / 4) / (nw as int)) <= u32::MAX,
            decreases nw - dx,
        {
            proof {
                assert((dx + 1) * scale <= w && (dy + 1) * scale <= h) by (nonlinear_arith)
                    requires dx < nw, dy < nh, nw * scale <= w, nh * scale <= h, scale > 0;
                assert(dx * scale <= (dx + 1) * scale && dy * scale <= (dy + 1) * scale) by (nonlinear_arith)
                    requires scale > 0;
            }
            let x0 = dx * scale;
            let x1 = if (dx + 1) * scale <= w { (dx + 1) * scale } else { w };
            let y0 = dy * scale;
            let y1 = if (dy + 1) * scale <= h { (dy + 1) * scale } else { h };
            proof {
                assert(y1 * w * 4 <= img@.len()) by (nonlinear_arith)
                    requires y1 <= h, img@.len() == w * h * 4;
                assert(0 <= (x1 - x0) * (y1 - y0) <= w * h) by (nonlinear_arith)
                    requires x0 <= x1 <= w, y0 <= y1 <= h;
            }
            let ghost p = (dy * nw + dx) as int;
            let mut c: usize = 0;
            while c < 4
                invariant
                    img@.len() == w * h * 4,
                    w * h * 4 <= u32::MAX,
                    s == scale,
                    scale > 0,
                    thumb == thumbnail_of(img@, w, h, max_edge),
                    scale == shrink_factor(w, h, max_edge),
                    nw == w / scale,
                    nh == h / scale,
                    nw * nh <= w * h,
                    dy < nh,
                    dx < nw,
                    p == dy * nw + dx,
                    x0 == dx * scale,
                    y0 == dy * scale,
                    x1 == at_most((dx + 1) * scale, w as int),
                    y1 == at_most((dy + 1) * scale, h as int),
                    x0 <= x1 <= w,
                    y0 <= y1 <= h,
                    y1 * w * 4 <= img@.len(),
                    (x1 - x0) * (y1 - y0) <= w * h,
                    c <= 4,
                    out@.len() == p * 4 + c,
                    forall|j: int| 0 <= j < out@.len() ==> #[trigger] out@[j] == thumb[j],
                    forall|j: int| 0 <= j < out@.len() ==> #[trigger] thumb_cell_sum(img@, w, h, s, j % 4, (j / 4) % (nw as int), (j / 4) / (nw as int)) <= u32::MAX,
                decreases 4 - c,
            {
                let sum = channel_box_sum(img, w, c, x0, x1, y0, y1);
                let ghost j = p * 4 + c;
                proof {
                    assert(p < nw * nh) by (nonlinear_arith)
                        requires p == dy * nw + dx, dy < nh, dx < nw;
                    lemma_row_major(p, c as int, 4, (nw * nh) as int);
                    lemma_row_major(dy as int, dx as int, nw as int, nh as int);
                }
                if sum > u32::MAX as u64 {
                    proof {
                        assert(thumb_cell_sum(img@, w, h, s, c as int, dx as int, dy as int) > u32::MAX);
                    }
                    return None;
                }
                let cnt = ((x1 - x0) as u64) * ((y1 - y0) as u64);
                let cnt = if cnt > 1 { cnt } else { 1 };
                proof {
                    lemma_box_sum_bounds(img@, w as int, c as int, x0 as int, x1 as int, y0 as int, y1 as int);
                    lemma_box_average_bounds(img@, w as int, c as int, x0 as int, x1 as int, y0 as int, y1 as int);
                    assert(box_count(x0 as int, x1 as int, y0 as int, y1 as int) == if x1 <= x0 || y1 <= y0 { 0 } else { (x1 - x0) * (y1 - y0) });
                    if x1 <= x0 || y1 <= y0 {
                        assert((x1 - x0) * (y1 - y0) == 0) by (nonlinear_arith)
                            requires x0 <= x1, y0 <= y1, x1 <= x0 || y1 <= y0;
                    }
                }
                out.push((sum / cnt) as u8);
                c = c + 1;
            }
            proof {
                assert((dy * nw + dx + 1) * 4 == (dy * nw + dx) * 4 + 4) by (nonlinear_arith);
            }
            dx = dx + 1;
        }
        proof {
            assert((dy * nw + nw) * 4 == (dy + 1) * nw * 4) by (nonlinear_arith);
        }
        dy = dy + 1;
    }
    proof {
        assert(out@.len() == nw * nh * 4) by (nonlinear_arith)
            requires out@.len() == dy * nw * 4, dy == nh;
        assert(out@ =~= thumb);
        assert forall|dx: int, dy: int, c: int| 0 <= dx < (w as int) / s && 0 <= dy < (h as int) / s && 0 <= c < 4 implies
            #[trigger] thumb_cell_sum(img@, w, h, s, c, dx, dy) <= u32::MAX by {
            let j = (dy * nw + dx) * 4 + c;
            assert(dy * nw + dx < nw * nh) by (nonlinear_arith)
                requires 0 <= dy < nh, 0 <= dx < nw;
            lemma_row_major(dy * nw + dx, c, 4, (nw * nh) as int);
            lemma_row_major(dy, dx, nw as int, nh as int);
            assert(0 <= j < out@.len());
        }
    }
    Some((nw, nh, out))
}

/// Message where making a thumbnail would overflow `u32` arithmetic.
pub open spec fn thumb_overflow_text() -> Seq<char> {
    "缩略图计算溢出"@
}

/// The thumbnail that `make_thumbnail` yields for the file `bytes`: width,
/// height and PNG file; `None` where it fails.
pub open spec fn thumbnail_result(bytes: Seq<u8>, max_edge: u32) -> Option<(u32, u32, Seq<u8>)> {
    match decoded_rgba8(bytes) {
        None => None,
        Some((w, h, p)) => {
            let nw = (w as int) / shrink_factor(w, h, max_edge);
            let nh = (h as int) / shrink_factor(w, h, max_edge);
            if thumb_overflows(p, w, h, max_edge) || nw == 0 || nh == 0 {
                None
            } else {
                Some((nw as u32, nh as u32, png_encoding_at(nw as u32, nh as u32, SampleDepth::Eight, PngCompression::Fast, thumbnail_of(p, w, h, max_edge))))
            }
        },
    }
}

/// The thumbnail pixels of the file `bytes` (see `thumbnail_of`), before
/// they are encoded.
pub open spec fn thumbnail_pixels_of(bytes: Seq<u8>, max_edge: u32) -> Seq<u8> {
    match decoded_rgba8(bytes) {
        Some((w, h, p)) => thumbnail_of(p, w, h, max_edge),
        None => Seq::empty(),
    }
}

/// The failure messages of `make_thumbnail` for the file `bytes`: those of
/// the RGBA8 loader, the overflow message, or (for an empty thumbnail) the
/// encoder's own message.
pub open spec fn thumbnail_error(bytes: Seq<u8>, max_edge: u32, m: Seq<char>) -> bool {
    match decoded_rgba8(bytes) {
        None => load_error(bytes, rgba8_supported(bytes), m),
        Some((w, h, p)) => if thumb_overflows(p, w, h, max_edge) {
            m == thumb_overflow_text()
        } else {
            let nw = (w as int) / shrink_factor(w, h, max_edge);
            let nh = (h as int) / shrink_factor(w, h, max_edge);
            m == png_encoding_error(nw as u32, nh as u32, SampleDepth::Eight, thumbnail_of(p, w, h, max_edge))
        },
    }
}

/// A thumbnail of the PNG file `bytes` whose long edge is at most
/// `max_edge`, box-averaged and encoded as an RGBA8 PNG at the fast level:
/// its width, height and file bytes.
pub fn make_thumbnail(bytes: &[u8], max_edge: u32) -> (res: Result<(u32, u32, Vec<u8>), String>)
    requires
        max_edge > 0,
    ensures
        match decoded_rgba8(bytes@) {
            None => res matches Err(m) && load_error(bytes@, rgba8_supported(bytes@), m@),
            Some((w, h, p)) => if thumb_overflows(p, w, h, max_edge) {
                res matches Err(m) && m@ == thumb_overflow_text()
            } else {
                let nw = (w as int) / shrink_factor(w, h, max_edge);
                let nh = (h as int) / shrink_factor(w, h, max_edge);
                if nw > 0 && nh > 0 {
                    res matches Ok((tw, th, file)) && tw == nw && th == nh && file@ == png_encoding_at(
                        nw as u32,
                        nh as u32,
                        SampleDepth::Eight,
                        PngCompression::Fast,
                        thumbnail_of(p, w, h, max_edge),
                    )
                } else {
                    res matches Err(m) && m@ == png_encoding_error(
                        nw as u32,
                        nh as u32,
                        SampleDepth::Eight,
                        thumbnail_of(p, w, h, max_edge),
                    )
                }
            },
        },
        match res {
            Ok((tw, th, file)) => thumbnail_result(bytes@, max_edge) == Some((tw, th, file@)),
            Err(m) => thumbnail_result(bytes@, max_edge) is None && thumbnail_error(bytes@, max_edge, m@),
        },
        res matches Ok((tw, th, file)) ==> (decoded_rgba8(file@) is Some ==> decoded_rgba8(file@) == Some(
            (tw, th, thumbnail_pixels_of(bytes@, max_edge)),
        )),
{
    let (w, h, rgba) = match load_png_rgba8(bytes) {
        Ok(v) => v,
        Err(m) => return Err(m),
    };
    match thumbnail_pixels(w, h, rgba.as_slice(), max_edge) {
        None => Err(String::from_str("缩略图计算溢出")),
        Some((nw, nh, out)) => {
            proof {
                let sc = shrink_factor(w, h, max_edge);
                assert(nw * nh * 4 <= w * h * 4) by (nonlinear_arith)
                    requires sc >= 1, nw == (w as int) / sc, nh == (h as int) / sc, w >= 0, h >= 0;
            }
            match png_encode_rgba_at(nw, nh, SampleDepth::Eight, PngCompression::Fast, out.as_slice()) {
                Ok(file) => {
                    proof {
                        lemma_rgba8_pixels_of_rgba8(nw, nh, out@);
                    }
                    Ok((nw, nh, file))
                },
                Err(e) => Err(e),
            }
        },
    }
}

} // verus!
