//! Layer compositing for a PNG texture merger: pixel blending, layer
//! transforms, PNG frame conversion, thumbnails, previews and import
//! bookkeeping, each with its contract.

pub mod composite;
pub mod composite_laws;
pub mod boxsum;
pub mod decode;
pub mod export;
pub mod preview;
pub mod import;
pub mod model;

use vstd::prelude::*;

verus! {

/// Shared state of a running export: the flag that a cancel request sets.
pub struct ExportState {
    pub cancel: std::sync::atomic::AtomicBool,
}

} // verus!
