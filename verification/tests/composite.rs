use texture_merger::composite::{
    blend_premul16, blend_premul8, output_size, transform_into, unpremultiply16, unpremultiply8,
    visible_bottom_up,
};
use texture_merger::model::LayerState;

fn layer(id: u32, width: u32, height: u32, rotate: u8, visible: bool) -> LayerState {
    LayerState {
        id,
        path: String::new(),
        width,
        height,
        rotate,
        flip_h: false,
        flip_v: false,
        visible,
    }
}

#[test]
fn blend_premul8_src_alpha0_keeps_dst() {
    let mut acc = [100u8, 50, 200, 255];
    blend_premul8(&mut acc, [255, 0, 0, 0]);
    assert_eq!(acc, [100, 50, 200, 255]);
}

#[test]
fn blend_premul8_src_opaque_overwrites() {
    let mut acc = [100u8, 50, 200, 128];
    blend_premul8(&mut acc, [10, 20, 30, 255]);
    assert_eq!(acc, [10, 20, 30, 255]);
}

#[test]
fn blend_premul8_half_alpha() {
    let mut acc = [200u8, 0, 0, 128];
    blend_premul8(&mut acc, [0, 0, 200, 128]);
    assert!((99..=100).contains(&acc[0]));
    assert_eq!(acc[1], 0);
    assert_eq!(acc[2], 100);
    assert_eq!(acc[3], 191);
}

#[test]
fn transform_rotate90_swaps_dims() {
    let src: Vec<u8> = vec![1, 1, 1, 255, 2, 2, 2, 255];
    let out = transform_into(&src, 2, 1, 1, false, false);
    assert_eq!(out.len(), 8);
    assert_eq!(&out[0..4], &[2, 2, 2, 255]);
    assert_eq!(&out[4..8], &[1, 1, 1, 255]);
}

#[test]
fn transform_flip_h() {
    let src: Vec<u8> = vec![1, 1, 1, 255, 2, 2, 2, 255];
    let out = transform_into(&src, 2, 1, 0, true, false);
    assert_eq!(&out[0..4], &[2, 2, 2, 255]);
    assert_eq!(&out[4..8], &[1, 1, 1, 255]);
}

#[test]
fn composite_skips_hidden_and_follows_order() {
    let layers = vec![layer(3, 1, 1, 0, false), layer(2, 1, 1, 0, true), layer(1, 1, 1, 0, true)];
    let mut acc = [0u8; 4];
    for layer in layers.iter().rev() {
        if !layer.visible {
            continue;
        }
        let px = if layer.id == 1 { [255, 0, 0, 255] } else { [0, 0, 255, 128] };
        blend_premul8(&mut acc, px);
    }
    assert_eq!(acc[0], 255 - 128);
    assert_eq!(acc[2], 128);
    assert!(acc[3] == 255);
}

#[test]
fn blend_premul8_exact_channels() {
    // 100 * 51 / 255 = 20; 40 * 204 / 255 = 32; 51 + 128 * 204 / 255 = 153.
    let mut acc = [40u8, 40, 40, 128];
    blend_premul8(&mut acc, [100, 0, 255, 51]);
    assert_eq!(acc, [20 + 32, 32, 51 + 32, 153]);
}

#[test]
fn blend_premul16_cases() {
    let mut acc = [1000u16, 2000, 3000, 65535];
    blend_premul16(&mut acc, [9, 9, 9, 0]);
    assert_eq!(acc, [1000, 2000, 3000, 65535]);
    blend_premul16(&mut acc, [7, 8, 9, 65535]);
    assert_eq!(acc, [7, 8, 9, 65535]);
    let mut acc = [0u16, 0, 0, 0];
    blend_premul16(&mut acc, [65535, 0, 0, 32768]);
    // 65535 * 32768 / 65535 = 32768; alpha 32768 + 0.
    assert_eq!(acc, [32768, 0, 0, 32768]);
}

#[test]
fn blend_keeps_premultiplied_and_alpha_grows() {
    let mut acc = [30u8, 60, 90, 90];
    blend_premul8(&mut acc, [250, 10, 128, 77]);
    assert!(acc[0] <= acc[3] && acc[1] <= acc[3] && acc[2] <= acc[3]);
    assert!(acc[3] >= 90);
}

#[test]
fn unpremultiply8_cases() {
    assert_eq!(unpremultiply8([10, 20, 30, 0]), [10, 20, 30, 0]);
    assert_eq!(unpremultiply8([10, 20, 30, 255]), [10, 20, 30, 255]);
    // 64 * 255 / 128 = 127; 128 * 255 / 128 = 255; 200 * 255 / 128 capped at 255.
    assert_eq!(unpremultiply8([64, 128, 200, 128]), [127, 255, 255, 128]);
}

#[test]
fn unpremultiply16_cases() {
    assert_eq!(unpremultiply16([1, 2, 3, 0]), [1, 2, 3, 0]);
    assert_eq!(unpremultiply16([1, 2, 3, 65535]), [1, 2, 3, 65535]);
    assert_eq!(unpremultiply16([16384, 65535, 0, 32768]), [32767, 65535, 0, 32768]);
}

#[test]
fn visible_bottom_up_reverses_visible() {
    let layers = vec![layer(1, 1, 1, 0, true), layer(2, 1, 1, 0, false), layer(3, 1, 1, 0, true)];
    let order = visible_bottom_up(&layers);
    let ids: Vec<u32> = order.iter().map(|l| l.id).collect();
    assert_eq!(ids, vec![3, 1]);
    let none: Vec<LayerState> = vec![layer(1, 1, 1, 0, false)];
    assert!(visible_bottom_up(&none).is_empty());
}

#[test]
fn output_size_rules() {
    assert_eq!(output_size(&[]), None);
    assert_eq!(output_size(&[layer(1, 4, 2, 0, false)]), None);
    assert_eq!(output_size(&[layer(1, 4, 2, 0, true), layer(2, 2, 4, 1, true)]), Some((4, 2)));
    assert_eq!(output_size(&[layer(1, 4, 2, 0, true), layer(2, 4, 2, 1, true)]), None);
    assert_eq!(output_size(&[layer(1, 4, 2, 3, true), layer(2, 9, 9, 0, false)]), Some((2, 4)));
}

#[test]
fn transform_rotations_and_flips() {
    // 2x2 image, one byte per pixel: [a b / c d].
    let src: Vec<u8> = vec![1, 2, 3, 4];
    assert_eq!(transform_into(&src, 2, 2, 0, false, false), vec![1, 2, 3, 4]);
    assert_eq!(transform_into(&src, 2, 2, 1, false, false), vec![2, 4, 1, 3]);
    assert_eq!(transform_into(&src, 2, 2, 2, false, false), vec![4, 3, 2, 1]);
    assert_eq!(transform_into(&src, 2, 2, 3, false, false), vec![3, 1, 4, 2]);
    assert_eq!(transform_into(&src, 2, 2, 0, false, true), vec![3, 4, 1, 2]);
    assert_eq!(transform_into(&src, 2, 2, 0, true, true), vec![4, 3, 2, 1]);
    // Fewer bytes than pixels: nothing to copy.
    assert_eq!(transform_into(&[9u8, 9], 2, 2, 1, false, false), Vec::<u8>::new());
}

#[test]
fn transform_round_trips() {
    let src: Vec<u8> = (0u8..24).collect(); // 3x2 RGBA8
    let turned = transform_into(&src, 3, 2, 1, false, false);
    assert_eq!(transform_into(&turned, 2, 3, 3, false, false), src);
    let flipped = transform_into(&src, 3, 2, 0, true, false);
    assert_eq!(transform_into(&flipped, 3, 2, 0, true, false), src);
    let turned2 = transform_into(&src, 3, 2, 2, false, false);
    assert_eq!(transform_into(&turned2, 3, 2, 2, false, false), src);
}

#[test]
fn hidden_layer_changes_nothing() {
    let without = vec![layer(1, 4, 2, 0, true), layer(3, 2, 4, 1, true)];
    let with = vec![layer(1, 4, 2, 0, true), layer(2, 7, 7, 0, false), layer(3, 2, 4, 1, true)];
    assert_eq!(output_size(&with), output_size(&without));
    assert_eq!(output_size(&with), Some((4, 2)));
    let ids = |v: &Vec<LayerState>| visible_bottom_up(v).iter().map(|l| l.id).collect::<Vec<u32>>();
    assert_eq!(ids(&with), ids(&without));
    assert_eq!(ids(&with), vec![3, 1]);
}
