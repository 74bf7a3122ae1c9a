use base64::Engine as _;
use texture_merger::decode::{load_png_rgba8, make_png_rgba8};
use texture_merger::model::{LayerState, Snapshot};
use texture_merger::preview::build_preview;

fn layer(id: u32, w: u32, h: u32, visible: bool) -> LayerState {
    LayerState { id, path: format!("layer{id}.png"), width: w, height: h, rotate: 0, flip_h: false, flip_v: false, visible }
}

fn data_url_to_bytes(url: &str) -> Vec<u8> {
    let b64 = url.split(',').nth(1).unwrap();
    base64::engine::general_purpose::STANDARD.decode(b64).unwrap()
}

#[test]
fn preview_composites_two_layers() {
    let bottom = make_png_rgba8(2, 2, &[255, 0, 0, 255, 255, 0, 0, 255, 255, 0, 0, 255, 255, 0, 0, 255]);
    let top = make_png_rgba8(2, 2, &[0, 0, 255, 255, 0, 0, 0, 0, 0, 0, 0, 0, 0, 0, 0, 0]);
    let snapshot = Snapshot { layers: vec![layer(0, 2, 2, true), layer(1, 2, 2, true)] };
    // Files in bottom-up order of the visible layers.
    let img = build_preview(snapshot, 512, vec![Ok(bottom), Ok(top)]).unwrap();
    assert_eq!((img.width, img.height), (2, 2));
    let png_bytes = data_url_to_bytes(&img.data_url);
    let (_, _, rgba) = load_png_rgba8(&png_bytes).unwrap();
    assert_eq!(&rgba[0..4], &[0, 0, 255, 255]);
    assert_eq!(&rgba[4..8], &[255, 0, 0, 255]);
}

#[test]
fn preview_size_mismatch_and_read_errors() {
    let snapshot = Snapshot { layers: vec![layer(0, 2, 2, true), layer(1, 3, 2, true)] };
    assert_eq!(build_preview(snapshot, 512, vec![Ok(vec![]), Ok(vec![])]).unwrap_err(), "图层尺寸不一致");
    let snapshot = Snapshot { layers: vec![layer(0, 2, 2, true)] };
    assert_eq!(build_preview(snapshot, 512, vec![Err("打开失败: x".to_string())]).unwrap_err(), "打开失败: x");
    let snapshot = Snapshot { layers: vec![layer(0, 2, 2, true)] };
    assert!(build_preview(snapshot, 512, vec![Ok(b"junk".to_vec())]).unwrap_err().starts_with("解码失败: "));
}

#[test]
fn preview_shrinks_and_skips_hidden() {
    // 4x4 opaque grey layer shrunk to 2x2; the hidden layer has no file.
    let grey = make_png_rgba8(4, 4, &[100u8; 64].iter().enumerate().map(|(i, v)| if i % 4 == 3 { 255 } else { *v }).collect::<Vec<u8>>());
    let snapshot = Snapshot { layers: vec![layer(0, 4, 4, false), layer(1, 4, 4, true)] };
    let img = build_preview(snapshot, 2, vec![Ok(grey)]).unwrap();
    assert_eq!((img.width, img.height), (2, 2));
    let (_, _, rgba) = load_png_rgba8(&data_url_to_bytes(&img.data_url)).unwrap();
    assert_eq!(rgba, [100, 100, 100, 255].repeat(4));
}

#[test]
fn preview_edges_within_max_dim() {
    // A 6x3 layer under a limit of 4: factor 2, so a 3x1 preview.
    let px: Vec<u8> = [10u8, 20, 30, 255].repeat(18);
    let file = make_png_rgba8(6, 3, &px);
    let snapshot = Snapshot { layers: vec![layer(0, 6, 3, true)] };
    let img = build_preview(snapshot, 4, vec![Ok(file.clone())]).unwrap();
    assert_eq!((img.width, img.height), (3, 1));
    // Within the limit the preview keeps the full size.
    let snapshot = Snapshot { layers: vec![layer(0, 6, 3, true)] };
    let img = build_preview(snapshot, 6, vec![Ok(file)]).unwrap();
    assert_eq!((img.width, img.height), (6, 3));
}

#[test]
fn hidden_layers_do_not_change_the_preview() {
    let red = make_png_rgba8(2, 2, &[255, 0, 0, 255].repeat(4));
    let plain = Snapshot { layers: vec![layer(1, 2, 2, true)] };
    let mut hidden = layer(2, 9, 9, false);
    hidden.rotate = 1;
    let with_hidden = Snapshot { layers: vec![hidden, layer(1, 2, 2, true), layer(3, 5, 1, false)] };
    let a = build_preview(plain, 512, vec![Ok(red.clone())]).unwrap();
    let b = build_preview(with_hidden, 512, vec![Ok(red)]).unwrap();
    assert_eq!((a.width, a.height, a.data_url), (b.width, b.height, b.data_url));
}
