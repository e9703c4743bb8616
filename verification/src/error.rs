//! The error kinds this library reports.

use vstd::prelude::*;

verus! {

/// Why a request was turned down. Every kind is recoverable.
#[derive(Clone, Copy, Debug, PartialEq, Eq, Structural)]
pub enum PointsViewerError {
    /// A query argument is malformed or out of range.
    InvalidInput,
    /// A stored description has a version this library does not read.
    UnsupportedVersion,
    /// The loader could not open the tree at the resolved address.
    LoadFailure,
    /// Joining prefix, key and suffix gave no usable address.
    MalformedAddress,
}

} // verus!
