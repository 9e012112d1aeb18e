//! What the reader of QR codes decides between the steps that find and
//! read a symbol.

use crate::barcode_format::BarcodeFormat;
use vstd::prelude::*;

verus! {

/// The least width, in modules, of a QR code; a narrower symbol is a Micro
/// QR code.
pub const QR_CODE_MIN_WIDTH: u32 = 21;

/// A reader of QR codes and Micro QR codes.
#[derive(Debug, Clone, Copy)]
pub struct QrReader {}

/// Whether `format` is one of `formats`.
pub open spec fn holds_format(formats: Seq<BarcodeFormat>, format: BarcodeFormat) -> bool {
    exists|i: int| 0 <= i < formats.len() && formats[i] == format
}

impl QrReader {
    /// A reader.
    pub fn new() -> (r: Self) {
        Self {  }
    }

    /// The kind of a symbol whose matrix is `width` modules wide.
    pub fn formatOfWidth(width: u32) -> (r: BarcodeFormat)
        ensures
            r == (if width < QR_CODE_MIN_WIDTH {
                BarcodeFormat::MICRO_QR_CODE
            } else {
                BarcodeFormat::QR_CODE
            }),
    {
        if width < QR_CODE_MIN_WIDTH {
            BarcodeFormat::MICRO_QR_CODE
        } else {
            BarcodeFormat::QR_CODE
        }
    }

    /// Whether `format` is one of `formats`.
    pub fn holdsFormat(formats: &Vec<BarcodeFormat>, format: BarcodeFormat) -> (r: bool)
        ensures
            r == holds_format(formats@, format),
    {
        let mut i: usize = 0;
        while i < formats.len()
            invariant
                i <= formats@.len(),
                forall|k: int| 0 <= k < i ==> formats@[k] != format,
            decreases formats@.len() - i,
        {
            if formats[i] == format {
                return true;
            }
            i += 1;
        }
        false
    }

    /// Whether QR codes and whether Micro QR codes are looked for: each
    /// where it is among the formats that may occur, and both where no
    /// formats are given.
    pub fn formatsToCheck(possibleFormats: Option<&Vec<BarcodeFormat>>) -> (r: (bool, bool))
        ensures
            r == (match possibleFormats {
                Some(formats) => (
                    holds_format(formats@, BarcodeFormat::QR_CODE),
                    holds_format(formats@, BarcodeFormat::MICRO_QR_CODE),
                ),
                None => (true, true),
            }),
    {
        match possibleFormats {
            Some(formats) => (
                QrReader::holdsFormat(formats, BarcodeFormat::QR_CODE),
                QrReader::holdsFormat(formats, BarcodeFormat::MICRO_QR_CODE),
            ),
            None => (true, true),
        }
    }

    /// Whether enough symbols were read: as many as `maxSymbols`, where
    /// that is not 0, which stands for any number.
    pub fn isComplete(found: usize, maxSymbols: u32) -> (r: bool)
        ensures
            r == (maxSymbols != 0 && found == maxSymbols),
    {
        maxSymbols != 0 && found == maxSymbols as usize
    }
}

} // verus!
