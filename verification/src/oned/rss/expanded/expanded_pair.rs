//! A pair of data characters around one finder pattern.

use crate::oned::rss::data_character::DataCharacter;
use crate::oned::rss::finder_pattern::FinderPattern;
use vstd::prelude::*;

verus! {

/// The data characters to the left and to the right of one finder pattern.
/// The right one is missing where it could not be read: such a pair is the
/// last of its row.
#[derive(Debug, Clone, Copy)]
pub struct ExpandedPair {
    pub left_char: Option<DataCharacter>,
    pub right_char: Option<DataCharacter>,
    pub finder_pattern: FinderPattern,
}

/// Whether two pairs are the same reading: the same characters around the
/// same canonical finder pattern, wherever they were found.
pub open spec fn same_pair(a: ExpandedPair, b: ExpandedPair) -> bool {
    &&& a.left_char == b.left_char
    &&& a.right_char == b.right_char
    &&& a.finder_pattern.value == b.finder_pattern.value
}

/// Whether two sequences of pairs are the same readings in the same order.
pub open spec fn same_pairs(a: Seq<ExpandedPair>, b: Seq<ExpandedPair>) -> bool {
    &&& a.len() == b.len()
    &&& forall|i: int| 0 <= i < a.len() ==> same_pair(#[trigger] a[i], b[i])
}

/// Whether `pairs` holds a pair that is the same reading as `p`.
pub open spec fn holds_pair(pairs: Seq<ExpandedPair>, p: ExpandedPair) -> bool {
    exists|i: int| 0 <= i < pairs.len() && same_pair(#[trigger] pairs[i], p)
}

/// Whether `pairs` holds every pair of `items`.
pub open spec fn holds_all(pairs: Seq<ExpandedPair>, items: Seq<ExpandedPair>) -> bool {
    forall|j: int| 0 <= j < items.len() ==> holds_pair(pairs, #[trigger] items[j])
}

/// Whether two characters, each of which may be missing, are the same.
pub fn sameCharacter(a: &Option<DataCharacter>, b: &Option<DataCharacter>) -> (r: bool)
    ensures
        r == (*a == *b),
{
    match (a, b) {
        (Some(x), Some(y)) => x.value == y.value && x.checksum_portion == y.checksum_portion,
        (None, None) => true,
        _ => false,
    }
}

impl ExpandedPair {
    /// The pair of the characters `leftChar` and `rightChar` around the
    /// finder pattern `finderPattern`.
    pub fn new(
        leftChar: Option<DataCharacter>,
        rightChar: Option<DataCharacter>,
        finderPattern: FinderPattern,
    ) -> (r: Self)
        ensures
            r.left_char == leftChar,
            r.right_char == rightChar,
            r.finder_pattern == finderPattern,
    {
        Self { left_char: leftChar, right_char: rightChar, finder_pattern: finderPattern }
    }

    /// The character to the left of the finder pattern.
    pub fn getLeftChar(&self) -> (r: Option<DataCharacter>)
        ensures
            r == self.left_char,
    {
        self.left_char
    }

    /// The character to the right of the finder pattern, if it was read.
    pub fn getRightChar(&self) -> (r: Option<DataCharacter>)
        ensures
            r == self.right_char,
    {
        self.right_char
    }

    /// The finder pattern between the characters.
    pub fn getFinderPattern(&self) -> (r: FinderPattern)
        ensures
            r == self.finder_pattern,
    {
        self.finder_pattern
    }

    /// Whether the pair has to be the last of its row: it is, exactly where
    /// the right character is missing.
    pub fn mustBeLast(&self) -> (r: bool)
        ensures
            r == (self.right_char is None),
    {
        self.right_char.is_none()
    }

    /// Whether the two pairs are the same reading.
    pub fn equals(&self, other: &ExpandedPair) -> (r: bool)
        ensures
            r == same_pair(*self, *other),
    {
        sameCharacter(&self.left_char, &other.left_char) && sameCharacter(
            &self.right_char,
            &other.right_char,
        ) && self.finder_pattern.equals(&other.finder_pattern)
    }
}

/// Whether `pairs` holds a pair that is the same reading as `p`.
pub fn holdsPair(pairs: &Vec<ExpandedPair>, p: &ExpandedPair) -> (r: bool)
    ensures
        r == holds_pair(pairs@, *p),
{
    let mut i: usize = 0;
    while i < pairs.len()
        invariant
            i <= pairs@.len(),
            forall|k: int| 0 <= k < i ==> !same_pair(#[trigger] pairs@[k], *p),
        decreases pairs@.len() - i,
    {
        if pairs[i].equals(p) {
            return true;
        }
        i += 1;
    }
    false
}

/// Whether `pairs` holds every pair of `items`.
pub fn holdsAll(pairs: &Vec<ExpandedPair>, items: &Vec<ExpandedPair>) -> (r: bool)
    ensures
        r == holds_all(pairs@, items@),
{
    let mut j: usize = 0;
    while j < items.len()
        invariant
            j <= items@.len(),
            forall|k: int| 0 <= k < j ==> holds_pair(pairs@, #[trigger] items@[k]),
        decreases items@.len() - j,
    {
        if !holdsPair(pairs, &items[j]) {
            return false;
        }
        j += 1;
    }
    true
}

/// A copy of `pairs`.
pub fn copyPairs(pairs: &Vec<ExpandedPair>) -> (r: Vec<ExpandedPair>)
    ensures
        r@ == pairs@,
{
    let mut r: Vec<ExpandedPair> = Vec::new();
    let mut i: usize = 0;
    while i < pairs.len()
        invariant
            i <= pairs@.len(),
            r@ == pairs@.subrange(0, i as int),
        decreases pairs@.len() - i,
    {
        r.push(pairs[i]);
        i += 1;
        assert(r@ =~= pairs@.subrange(0, i as int));
    }
    assert(pairs@.subrange(0, pairs@.len() as int) =~= pairs@);
    r
}

} // verus!
