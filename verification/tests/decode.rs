use texture_merger::model::LayerState;
use texture_merger::decode::{
    decode_meta_for_layer, frame_to_rgba16, frame_to_rgba8, load_png_meta, load_png_rgba16, load_png_rgba8,
    make_png_rgba16, make_png_rgba8, make_thumbnail, rgba8_to_data_url, thumbnail_pixels, PngFrame,
};

#[test]
fn load_meta_8bit() {
    let png = make_png_rgba8(4, 2, &[0u8; 32]);
    let (w, h, is16) = load_png_meta(&png).unwrap();
    assert_eq!((w, h, is16), (4, 2, false));
}

#[test]
fn load_meta_16bit() {
    let png = make_png_rgba16(3, 3, &[0u16; 36]);
    let (w, h, is16) = load_png_meta(&png).unwrap();
    assert_eq!((w, h, is16), (3, 3, true));
}

#[test]
fn load_rgba8_values() {
    let png = make_png_rgba8(2, 1, &[1, 2, 3, 255, 9, 8, 7, 128]);
    let (w, h, data) = load_png_rgba8(&png).unwrap();
    assert_eq!((w, h), (2, 1));
    assert_eq!(&data[..], &[1, 2, 3, 255, 9, 8, 7, 128]);
}

#[test]
fn load_rgba16_from_8bit_keeps_range() {
    let png = make_png_rgba8(1, 1, &[200, 100, 50, 255]);
    let (w, h, data) = load_png_rgba16(&png).unwrap();
    assert_eq!((w, h), (1, 1));
    assert_eq!(&data[..], &[200, 100, 50, 255]);
}

#[test]
fn thumbnail_size_capped() {
    let png = make_png_rgba8(512, 512, &vec![0u8; 512 * 512 * 4]);
    let (w, h, out) = make_thumbnail(&png, 128).unwrap();
    assert!(w <= 128 && h <= 128);
    assert!(!out.is_empty());
}

#[test]
fn invalid_file_errors() {
    assert!(load_png_meta(b"not a png at all").is_err());
}

#[test]
fn meta_error_message_prefix() {
    let err = load_png_meta(b"not a png at all").unwrap_err();
    assert!(err.starts_with("读取PNG信息失败: "));
    let err = load_png_rgba8(b"nope").unwrap_err();
    assert!(err.starts_with("解码失败: "));
    let err = load_png_rgba16(b"nope").unwrap_err();
    assert!(err.starts_with("解码失败: "));
}

#[test]
fn truncated_file_fails_frame_decoding() {
    let png = make_png_rgba8(8, 8, &vec![7u8; 8 * 8 * 4]);
    // Keep the header chunks but cut the image data short.
    let cut = &png[..png.len() - 20];
    match load_png_rgba8(cut) {
        Err(m) => assert!(m.starts_with("解码帧失败: ") || m.starts_with("解码失败: ")),
        Ok(_) => panic!("a truncated file must not decode"),
    }
}

#[test]
fn rgba16_round_trip_and_high_bytes() {
    let samples: Vec<u16> = vec![0x1234, 0xABCD, 0x00FF, 0xFF00, 1, 2, 3, 65535];
    let png = make_png_rgba16(2, 1, &samples);
    let (w, h, data16) = load_png_rgba16(&png).unwrap();
    assert_eq!((w, h), (2, 1));
    assert_eq!(data16, samples);
    let (_, _, data8) = load_png_rgba8(&png).unwrap();
    assert_eq!(data8, vec![0x12, 0xAB, 0x00, 0xFF, 0, 0, 0, 0xFF]);
}

#[test]
fn frame_conversions() {
    let rgba8 = PngFrame { width: 1, height: 1, color: 6, depth: 8, data: vec![1, 2, 3, 4] };
    assert_eq!(frame_to_rgba8(rgba8).unwrap(), vec![1, 2, 3, 4]);
    let grey16 = PngFrame { width: 2, height: 1, color: 0, depth: 16, data: vec![0xAA, 0x01, 0xBB, 0x02] };
    assert_eq!(frame_to_rgba8(grey16).unwrap(), vec![0xAA, 0xAA, 0xAA, 255, 0xBB, 0xBB, 0xBB, 255]);
    let grey8 = PngFrame { width: 1, height: 1, color: 0, depth: 8, data: vec![77] };
    assert_eq!(frame_to_rgba8(grey8).unwrap(), vec![77, 77, 77, 255]);
    let grey_alpha8 = PngFrame { width: 2, height: 1, color: 4, depth: 8, data: vec![9, 7, 10, 8] };
    assert_eq!(frame_to_rgba8(grey_alpha8).unwrap(), vec![9, 9, 9, 7, 10, 10, 10, 8]);
    let rgb8 = PngFrame { width: 2, height: 1, color: 2, depth: 8, data: vec![1, 2, 3, 4, 5, 6] };
    assert_eq!(frame_to_rgba8(rgb8).unwrap(), vec![1, 2, 3, 255, 4, 5, 6, 255]);
    let rgb16 = PngFrame { width: 1, height: 1, color: 2, depth: 16, data: vec![0x12, 0x34, 0x56, 0x78, 0x9A, 0xBC] };
    assert_eq!(frame_to_rgba8(rgb16).unwrap(), vec![0x12, 0x56, 0x9A, 255]);
    let indexed = PngFrame { width: 1, height: 1, color: 3, depth: 8, data: vec![0] };
    assert_eq!(frame_to_rgba8(indexed).unwrap_err(), "不支持的像素格式");
    let rgb16 = PngFrame { width: 1, height: 1, color: 2, depth: 16, data: vec![0, 1, 0, 2, 0, 3] };
    assert_eq!(frame_to_rgba16(rgb16).unwrap_err(), "不支持的像素格式");
    let rgba8b = PngFrame { width: 1, height: 1, color: 6, depth: 8, data: vec![5, 6, 7, 8] };
    assert_eq!(frame_to_rgba16(rgba8b).unwrap(), vec![5, 6, 7, 8]);
    let rgba16 = PngFrame { width: 1, height: 1, color: 6, depth: 16, data: vec![1, 0, 0, 1, 2, 2, 255, 255] };
    assert_eq!(frame_to_rgba16(rgba16).unwrap(), vec![256, 1, 514, 65535]);
}

#[test]
fn thumbnail_box_average() {
    // 4x2 image, scale 2 → 2x1 thumbnail; each output pixel averages a 2x2 box.
    let mut img = vec![0u8; 4 * 2 * 4];
    for (i, v) in [10u8, 20, 30, 40, 50, 60, 70, 81].iter().enumerate() {
        img[i * 4] = *v;
        img[i * 4 + 3] = 255;
    }
    let (nw, nh, out) = thumbnail_pixels(4, 2, &img, 2).unwrap();
    assert_eq!((nw, nh), (2, 1));
    // (10 + 20 + 50 + 60) / 4 = 35; (30 + 40 + 70 + 81) / 4 = 55.
    assert_eq!(out, vec![35, 0, 0, 255, 55, 0, 0, 255]);
}

#[test]
fn thumbnail_overflow_and_empty() {
    // The long edge plus `max_edge - 1` must fit in a u32.
    assert!(thumbnail_pixels(2, 1, &[0u8; 8], u32::MAX).is_none());
    let (nw, nh, out) = thumbnail_pixels(1, 1, &[1, 2, 3, 4], u32::MAX).unwrap();
    assert_eq!((nw, nh, out), (1, 1, vec![1, 2, 3, 4]));
    let (nw, nh, out) = thumbnail_pixels(1, 300, &vec![0u8; 1200], 128).unwrap();
    assert_eq!((nw, nh), (0, 100));
    assert!(out.is_empty());
    // An empty thumbnail cannot be encoded.
    let png = make_png_rgba8(1, 300, &vec![0u8; 1200]);
    assert!(make_thumbnail(&png, 128).is_err());
}

#[test]
fn data_url_is_base64() {
    assert_eq!(rgba8_to_data_url(&[]), "data:image/png;base64,");
    assert_eq!(rgba8_to_data_url(b"Man"), "data:image/png;base64,TWFu");
    assert_eq!(rgba8_to_data_url(&[0xff, 0xfe]), "data:image/png;base64,//4=");
}

#[test]
fn encoded_fixture_is_png() {
    let png = make_png_rgba8(1, 1, &[1, 2, 3, 4]);
    assert_eq!(&png[..8], &[137, 80, 78, 71, 13, 10, 26, 10]);
    let png16 = make_png_rgba16(1, 1, &[1, 2, 3, 4]);
    assert_eq!(&png16[..8], &[137, 80, 78, 71, 13, 10, 26, 10]);
    assert_ne!(png, png16);
}

fn encode(w: u32, h: u32, color: png::ColorType, depth: png::BitDepth, data: &[u8]) -> Vec<u8> {
    let mut buf = Vec::new();
    {
        let mut enc = png::Encoder::new(&mut buf, w, h);
        enc.set_color(color);
        enc.set_depth(depth);
        let mut writer = enc.write_header().unwrap();
        writer.write_image_data(data).unwrap();
    }
    buf
}

#[test]
fn grey_and_rgb_files_expand_to_rgba8() {
    let grey = encode(1, 1, png::ColorType::Grayscale, png::BitDepth::Eight, &[77]);
    assert_eq!(load_png_rgba8(&grey).unwrap(), (1, 1, vec![77, 77, 77, 255]));
    let rgb16 = encode(1, 1, png::ColorType::Rgb, png::BitDepth::Sixteen, &[0x12, 0x34, 0x56, 0x78, 0x9A, 0xBC]);
    assert_eq!(load_png_rgba8(&rgb16).unwrap(), (1, 1, vec![0x12, 0x56, 0x9A, 255]));
    let palette = {
        let mut buf = Vec::new();
        {
            let mut enc = png::Encoder::new(&mut buf, 2, 1);
            enc.set_color(png::ColorType::Indexed);
            enc.set_depth(png::BitDepth::Eight);
            enc.set_palette(vec![10, 20, 30, 40, 50, 60]);
            let mut writer = enc.write_header().unwrap();
            writer.write_image_data(&[1, 0]).unwrap();
        }
        buf
    };
    assert_eq!(load_png_rgba8(&palette).unwrap(), (2, 1, vec![40, 50, 60, 255, 10, 20, 30, 255]));
}

#[test]
fn rgba16_refuses_other_colour_types() {
    let grey = encode(1, 1, png::ColorType::Grayscale, png::BitDepth::Eight, &[77]);
    assert_eq!(load_png_rgba16(&grey).unwrap_err(), "不支持的像素格式");
    let rgb = encode(1, 1, png::ColorType::Rgb, png::BitDepth::Eight, &[1, 2, 3]);
    assert_eq!(load_png_rgba16(&rgb).unwrap_err(), "不支持的像素格式");
}

#[test]
fn layer_meta_takes_size_from_header() {
    let layer = LayerState {
        id: 4,
        path: "x.png".to_string(),
        width: 0,
        height: 0,
        rotate: 3,
        flip_h: true,
        flip_v: false,
        visible: true,
    };
    let png = make_png_rgba8(3, 2, &[0u8; 24]);
    let got = decode_meta_for_layer(layer.clone(), &png).unwrap();
    assert_eq!((got.id, got.width, got.height, got.rotate, got.flip_h, got.visible), (4, 3, 2, 3, true, true));
    assert_eq!(got.path, "x.png");
    assert!(decode_meta_for_layer(layer, b"junk").unwrap_err().starts_with("读取PNG信息失败: "));
}

#[test]
fn thumbnail_file_decodes_to_its_pixels() {
    let mut px = Vec::new();
    for i in 0..16u8 {
        px.extend_from_slice(&[i * 10, 255 - i, i, 255]);
    }
    let png = make_png_rgba8(4, 4, &px);
    let (tw, th, file) = make_thumbnail(&png, 2).unwrap();
    let (w, h, expect) = thumbnail_pixels(4, 4, &px, 2).unwrap();
    assert_eq!(load_png_rgba8(&file).unwrap(), (tw, th, expect));
    assert_eq!((tw, th), (w, h));
}
