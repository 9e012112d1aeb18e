//! A finder pattern located in a row.

use crate::result_point::RXingResultPoint;
use vstd::prelude::*;

verus! {

/// A finder pattern: which of the canonical patterns it is, the bit offsets
/// in the row at which it starts and ends, and the number of the row.
#[derive(Debug, Clone, Copy)]
pub struct FinderPattern {
    pub value: u32,
    pub start: usize,
    pub end: usize,
    pub row_number: u32,
}

impl FinderPattern {
    /// The canonical pattern `value`, found from `start` to `end` in row
    /// `rowNumber`.
    pub fn new(value: u32, start: usize, end: usize, rowNumber: u32) -> (r: Self)
        ensures
            r.value == value,
            r.start == start,
            r.end == end,
            r.row_number == rowNumber,
    {
        Self { value, start, end, row_number: rowNumber }
    }

    /// Which of the canonical patterns this is.
    pub fn getValue(&self) -> (r: u32)
        ensures
            r == self.value,
    {
        self.value
    }

    /// The bit offsets at which the pattern starts and ends.
    pub fn getStartEnd(&self) -> (r: [usize; 2])
        ensures
            r@ == seq![self.start, self.end],
    {
        let r: [usize; 2] = [self.start, self.end];
        assert(r@ =~= seq![self.start, self.end]);
        r
    }

    /// The number of the row in which the pattern was found.
    pub fn getRowNumber(&self) -> (r: u32)
        ensures
            r == self.row_number,
    {
        self.row_number
    }

    /// The points at which the pattern starts and ends in the image.
    pub fn getRXingResultPoints(&self) -> (r: [RXingResultPoint; 2])
        requires
            self.start <= i64::MAX,
            self.end <= i64::MAX,
        ensures
            r@ == seq![
                RXingResultPoint { x: self.start as i64, y: self.row_number as i64 },
                RXingResultPoint { x: self.end as i64, y: self.row_number as i64 },
            ],
    {
        let r: [RXingResultPoint; 2] = [
            RXingResultPoint::new(self.start as i64, self.row_number as i64),
            RXingResultPoint::new(self.end as i64, self.row_number as i64),
        ];
        assert(r@ =~= seq![
            RXingResultPoint { x: self.start as i64, y: self.row_number as i64 },
            RXingResultPoint { x: self.end as i64, y: self.row_number as i64 },
        ]);
        r
    }

    /// Whether two finder patterns are the same canonical pattern, wherever
    /// they were found.
    pub fn equals(&self, other: &FinderPattern) -> (r: bool)
        ensures
            r == (self.value == other.value),
    {
        self.value == other.value
    }
}

} // verus!
