//! The pairs that were read from one row of an image.

use crate::oned::rss::expanded::expanded_pair::{copyPairs, same_pair, same_pairs, ExpandedPair};
use vstd::prelude::*;

verus! {

/// One row of a symbol as it was read: its pairs, in order, and the number
/// of the image row that they were read from.
#[derive(Debug)]
pub struct ExpandedRow {
    pub pairs: Vec<ExpandedPair>,
    pub row_number: u32,
}

/// What a row holds, as plain values.
pub struct RowView {
    pub pairs: Seq<ExpandedPair>,
    pub row_number: u32,
}

impl View for ExpandedRow {
    type V = RowView;

    open spec fn view(&self) -> RowView {
        RowView { pairs: self.pairs@, row_number: self.row_number }
    }
}

/// What the rows of a history hold, as plain values.
pub open spec fn rows_view(rows: Seq<ExpandedRow>) -> Seq<RowView> {
    rows.map_values(|r: ExpandedRow| r@)
}

impl ExpandedRow {
    /// The row of the pairs `pairs`, read from row `rowNumber` of the
    /// image.
    pub fn new(pairs: Vec<ExpandedPair>, rowNumber: u32) -> (r: Self)
        ensures
            r@.pairs == pairs@,
            r@.row_number == rowNumber,
    {
        Self { pairs, row_number: rowNumber }
    }

    /// The pairs of the row, in order.
    pub fn getPairs(&self) -> (r: &Vec<ExpandedPair>)
        ensures
            r@ == self@.pairs,
    {
        &self.pairs
    }

    /// The number of the image row that the pairs were read from.
    pub fn getRowNumber(&self) -> (r: u32)
        ensures
            r == self@.row_number,
    {
        self.row_number
    }

    /// Whether the row holds the same readings as `otherPairs`, in the same
    /// order.
    pub fn isEquivalent(&self, otherPairs: &Vec<ExpandedPair>) -> (r: bool)
        ensures
            r == same_pairs(self@.pairs, otherPairs@),
    {
        if self.pairs.len() != otherPairs.len() {
            return false;
        }
        let mut i: usize = 0;
        while i < self.pairs.len()
            invariant
                self.pairs@.len() == otherPairs@.len(),
                i <= self.pairs@.len(),
                forall|k: int| 0 <= k < i ==> same_pair(#[trigger] self.pairs@[k], otherPairs@[k]),
            decreases self.pairs@.len() - i,
        {
            if !self.pairs[i].equals(&otherPairs[i]) {
                return false;
            }
            i += 1;
        }
        true
    }
}

impl Clone for ExpandedRow {
    /// A copy with the same pairs and the same row number.
    fn clone(&self) -> (r: Self)
        ensures
            r@ == self@,
    {
        Self { pairs: copyPairs(&self.pairs), row_number: self.row_number }
    }
}

} // verus!
