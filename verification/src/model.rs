//! The data that travels between the front end and the library.

use vstd::prelude::*;

verus! {

/// One layer. Index 0 of a layer list is the topmost layer; compositing
/// walks the list from its end.
#[derive(Debug, Clone)]
pub struct LayerState {
    pub id: u32,
    pub path: String,
    pub width: u32,
    pub height: u32,
    /// Number of quarter turns; only its value modulo 4 matters.
    pub rotate: u8,
    pub flip_h: bool,
    pub flip_v: bool,
    pub visible: bool,
}

/// The whole layer stack as the front end sees it.
#[derive(Debug, Clone)]
pub struct Snapshot {
    pub layers: Vec<LayerState>,
}

/// The compression preset that the user picks for an export.
#[derive(Debug, Clone, Copy, PartialEq, Eq, Structural)]
pub enum Compression {
    Fast,
    Balanced,
    Best,
}

/// The compression levels of the PNG encoder, one for one.
#[derive(Debug, Clone, Copy, PartialEq, Eq, Structural)]
pub enum PngCompression {
    NoCompression,
    Fastest,
    Fast,
    Balanced,
    High,
}

impl Compression {
    /// The encoder level that a preset stands for.
    pub open spec fn spec_png_level(self) -> PngCompression {
        match self {
            Compression::Fast => PngCompression::Fast,
            Compression::Balanced => PngCompression::Balanced,
            Compression::Best => PngCompression::High,
        }
    }

    pub fn png_level(&self) -> (level: PngCompression)
        ensures
            level == self.spec_png_level(),
    {
        match self {
            Compression::Fast => PngCompression::Fast,
            Compression::Balanced => PngCompression::Balanced,
            Compression::Best => PngCompression::High,
        }
    }
}

/// Export settings: the bit depth (8 or 16) and the compression preset.
#[derive(Debug, Clone, Copy, PartialEq, Eq, Structural)]
pub struct ExportOptions {
    pub bit_depth: u8,
    pub compression: Compression,
}

/// The outcome of importing one file: its metadata and thumbnail, or the
/// reason it failed.
#[derive(Debug, Clone)]
pub enum ImportItem {
    /// The file was read: its metadata and thumbnail.
    Loaded {
        id: u32,
        path: String,
        name: String,
        width: u32,
        height: u32,
        has_alpha: bool,
        /// A `data:image/png;base64,...` URL.
        thumbnail: String,
    },
    /// The file could not be imported, and why.
    Error { path: String, reason: String },
}

/// A rendered preview: its size and a `data:image/png;base64,...` URL.
#[derive(Debug, Clone)]
pub struct PreviewImage {
    pub width: u32,
    pub height: u32,
    pub data_url: String,
}

/// What an export reports back.
#[derive(Debug, Clone)]
pub struct ExportStats {
    pub width: u32,
    pub height: u32,
    pub bytes_written: u64,
    pub duration_ms: u128,
}

} // verus!
