//! Progress reports of long-running algorithms.
use vstd::prelude::*;

verus! {

/// Receives progress reports from an algorithm; implemented by the library's users.
///
/// The algorithms only send reports: nothing that a report does changes their results.
pub trait ProgressCallback {
    /// Step `current` of `total` (when known) has been reached.
    fn on_progress(&self, current: usize, total: Option<usize>, message: &str);

    /// The algorithm has finished.
    fn on_complete(&self);

    /// The algorithm has met an error.
    fn on_error(&self, message: &str);
}

/// A progress receiver that ignores every report.
pub struct NoProgress;

impl ProgressCallback for NoProgress {
    fn on_progress(&self, current: usize, total: Option<usize>, message: &str) {
    }

    fn on_complete(&self) {
    }

    fn on_error(&self, message: &str) {
    }
}

} // verus!
