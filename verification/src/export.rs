//! Full-resolution export. Only its outcome is settled so far: every request
//! is answered with the same refusal.

use vstd::prelude::*;
use crate::model::{ExportOptions, ExportStats, Snapshot};
use crate::ExportState;

verus! {

/// The answer to every export request for now.
pub open spec fn export_refusal() -> Seq<char> {
    "not implemented"@
}

/// Exports `snapshot` with `options` to `save_path`. Full-resolution export
/// is not there yet: whatever the request, the answer is the refusal.
#[allow(unused_variables)]
pub fn run_export(snapshot: Snapshot, options: ExportOptions, save_path: String, state: &ExportState) -> (res: Result<
    ExportStats,
    String,
>)
    ensures
        res matches Err(m) && m@ == export_refusal(),
{
    let m = String::from_str("not implemented");
    proof {
        reveal_strlit("not implemented");
    }
    Err(m)
}

} // verus!
