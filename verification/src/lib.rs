//! Per-symbol instruction statistics from instrumentation output: two line
//! parsers (a live tagged stream and a sectioned report file), a counter
//! model with a merge, an internal-symbol policy, a sort-and-window
//! selector, and a four-format renderer.

pub mod live;
pub mod outside;
pub mod render;
pub mod report;
pub mod stats;
pub mod text;
pub mod utilities;

pub use stats::Entry;
pub use stats::Statistics;
pub use stats::ToolOutput;

use vstd::prelude::*;

verus! {

/// Options handed to a backend run: whether to retain the intermediate
/// report file, and whether runtime-internal symbols are merged into a
/// synthetic bucket.
pub struct ToolOptions {
    /// Retain the intermediate report file at this path instead of deleting it.
    pub keep: Option<String>,
    /// Merge runtime-internal symbols into one synthetic `"Internal"` entry.
    pub merge_internals: bool,
}

} // verus!
