//! What a detector finds in an image.

use crate::common::bit_matrix::BitMatrix;
use crate::result_point::RXingResultPoint;
use vstd::prelude::*;

verus! {

/// What a detector found: the matrix of black and white cells of the
/// barcode, and points of interest in the image, such as the corners of the
/// barcode.
pub struct DetectorRXingResult {
    bits: BitMatrix,
    points: Vec<RXingResultPoint>,
}

impl DetectorRXingResult {
    /// The cells of the barcode.
    pub closed spec fn spec_bits(&self) -> BitMatrix {
        self.bits
    }

    /// The points of interest.
    pub closed spec fn spec_points(&self) -> Seq<RXingResultPoint> {
        self.points@
    }

    /// The result with the cells `bits` and the points `points`.
    pub fn new(bits: BitMatrix, points: Vec<RXingResultPoint>) -> (r: Self)
        ensures
            r.spec_bits() == bits,
            r.spec_points() == points@,
    {
        Self { bits, points }
    }

    /// The cells of the barcode.
    pub fn getBits(&self) -> (r: &BitMatrix)
        ensures
            *r == self.spec_bits(),
    {
        &self.bits
    }

    /// The points of interest.
    pub fn getPoints(&self) -> (r: &Vec<RXingResultPoint>)
        ensures
            r@ == self.spec_points(),
    {
        &self.points
    }
}

} // verus!
