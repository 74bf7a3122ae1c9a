use std::sync::atomic::AtomicBool;
use texture_merger::export::run_export;
use texture_merger::model::{Compression, ExportOptions, LayerState, PngCompression, Snapshot};
use texture_merger::ExportState;

#[test]
fn export_answers_not_implemented() {
    let snapshot = Snapshot {
        layers: vec![LayerState {
            id: 1,
            path: "a.png".to_string(),
            width: 2,
            height: 2,
            rotate: 0,
            flip_h: false,
            flip_v: false,
            visible: true,
        }],
    };
    let options = ExportOptions { bit_depth: 16, compression: Compression::Best };
    let state = ExportState { cancel: AtomicBool::new(false) };
    let res = run_export(snapshot, options, "/tmp/out.png".to_string(), &state);
    assert_eq!(res.unwrap_err(), "not implemented");
}

#[test]
fn compression_presets_map_to_encoder_levels() {
    assert_eq!(Compression::Fast.png_level(), PngCompression::Fast);
    assert_eq!(Compression::Balanced.png_level(), PngCompression::Balanced);
    assert_eq!(Compression::Best.png_level(), PngCompression::High);
}
