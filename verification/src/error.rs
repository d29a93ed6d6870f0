//! The failures that end a scan.

use vstd::prelude::*;

verus! {

/// A failure that ends the scan.
#[derive(Debug)]
pub enum ScanError {
    /// A root that the user gave cannot be resolved.
    PathResolution { path: Vec<u8> },
    /// The metadata of a node that is neither directory nor symbolic link
    /// cannot be read.
    Metadata { path: Vec<u8> },
}

/// What a [`ScanError`] stands for in contracts.
pub enum ScanErrorView {
    PathResolution { path: Seq<u8> },
    Metadata { path: Seq<u8> },
}

impl View for ScanError {
    type V = ScanErrorView;

    open spec fn view(&self) -> ScanErrorView {
        match *self {
            ScanError::PathResolution { path } => ScanErrorView::PathResolution { path: path@ },
            ScanError::Metadata { path } => ScanErrorView::Metadata { path: path@ },
        }
    }
}

} // verus!
