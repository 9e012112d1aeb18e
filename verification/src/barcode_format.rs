//! The kinds of barcodes that the readers tell apart.

use vstd::prelude::*;

verus! {

/// A kind of barcode.
#[derive(Debug, Clone, Copy, PartialEq, Eq, Structural)]
pub enum BarcodeFormat {
    /// QR Code.
    QR_CODE,
    /// Micro QR Code.
    MICRO_QR_CODE,
    /// RSS Expanded.
    RSS_EXPANDED,
}

} // verus!
