//! The reader of RSS Expanded symbols: it reads the pairs of one row of an
//! image after the other and keeps the rows whose checksum does not hold, so
//! that the rows of a stacked symbol can be put together.

use crate::common::bit_array::BitArray;
use crate::exceptions::Exceptions;
use crate::oned::rss::data_character::DataCharacter;
use crate::oned::rss::expanded::character_decoder;
use crate::oned::rss::expanded::expanded_pair::{copyPairs, holds_all, ExpandedPair};
use crate::oned::rss::expanded::expanded_row::{rows_view, ExpandedRow, RowView};
use crate::oned::rss::expanded::finder_search;
use crate::oned::rss::expanded::finder_search::{
    lemma_located_finder, located_finder, next_pair, odd_pattern_next, search_offset,
};
use crate::oned::rss::expanded::row_history;
use crate::oned::rss::expanded::row_history::{
    checksum_holds, combined, in_row_order, insert_position, is_part_of, is_partial_row,
    lemma_stored_order, ordered, searched, stored, valid_sequence, without_parts,
};
use crate::oned::rss::finder_pattern::FinderPattern;
use crate::result_point::RXingResultPoint;
use vstd::prelude::*;

verus! {

/// A pair that was read has a left character and a finder pattern with a
/// canonical value that ends inside the row, behind the place from which it
/// was searched.
pub proof fn lemma_next_pair(
    bits: Seq<bool>,
    previous: Seq<ExpandedPair>,
    row_number: u32,
    start_from_even: bool,
)
    requires
        bits.len() <= usize::MAX,
    ensures
        next_pair(bits, previous, row_number, start_from_even) is Some ==> {
            let p = next_pair(bits, previous, row_number, start_from_even)->Some_0;
            &&& p.left_char is Some
            &&& p.finder_pattern.value <= 5
            &&& search_offset(previous, None) < p.finder_pattern.end <= bits.len()
            &&& search_offset(previous.push(p), None) == p.finder_pattern.end
        },
{
    lemma_located_finder(
        bits,
        search_offset(previous, None),
        odd_pattern_next(previous, start_from_even),
        row_number,
    );
    if next_pair(bits, previous, row_number, start_from_even) is Some {
        let p = next_pair(bits, previous, row_number, start_from_even)->Some_0;
        assert(previous.push(p).last() == p);
    }
}

/// The pairs of a row: `pairs` with the pairs that follow them in the row,
/// one after the other, up to the place where no pair follows.
pub open spec fn extended(
    bits: Seq<bool>,
    pairs: Seq<ExpandedPair>,
    row_number: u32,
    start_from_even: bool,
) -> Seq<ExpandedPair>
    decreases bits.len() - search_offset(pairs, None),
    when bits.len() <= usize::MAX
{
    match next_pair(bits, pairs, row_number, start_from_even) {
        Some(pair) => {
            proof {
                lemma_next_pair(bits, pairs, row_number, start_from_even);
            }
            extended(bits, pairs.push(pair), row_number, start_from_even)
        },
        None => pairs,
    }
}

/// What the reading of one row gives, after the pairs `pairs` with the rows
/// `rows` in the history: the pairs of a symbol, if one is found, the pairs
/// that the reader is left with, and the rows that the history is left
/// with.
///
/// The pairs of the row are a symbol where their checksum holds. Where it
/// does not, the row is stored; and where the history held rows before, the
/// rows are searched for a symbol, in their order first and in reverse then.
/// A row without a pair gives nothing and changes nothing.
pub open spec fn decoded_row(
    bits: Seq<bool>,
    row_number: u32,
    pairs: Seq<ExpandedPair>,
    rows: Seq<RowView>,
    start_from_even: bool,
) -> (Option<Seq<ExpandedPair>>, Seq<ExpandedPair>, Seq<RowView>) {
    let found = extended(bits, pairs, row_number, start_from_even);
    if found.len() == 0 {
        (None, found, rows)
    } else if checksum_holds(found) {
        (Some(found), found, rows)
    } else {
        let kept = stored(rows, found, row_number);
        if rows.len() == 0 {
            (None, found, kept)
        } else {
            let forward = searched(kept, false);
            match forward.0 {
                Some(symbol) => (Some(symbol), symbol, forward.1),
                None => {
                    let backward = searched(forward.1, true);
                    match backward.0 {
                        Some(symbol) => (Some(symbol), symbol, backward.1),
                        None => (None, Seq::empty(), backward.1),
                    }
                },
            }
        }
    }
}

/// The history stays in the order of the row numbers when a row is read,
/// whatever the row holds.
pub proof fn lemma_decoded_row_order(
    bits: Seq<bool>,
    row_number: u32,
    pairs: Seq<ExpandedPair>,
    rows: Seq<RowView>,
    start_from_even: bool,
)
    requires
        in_row_order(rows),
    ensures
        in_row_order(decoded_row(bits, row_number, pairs, rows, start_from_even).2),
{
    let found = extended(bits, pairs, row_number, start_from_even);
    lemma_stored_order(rows, found, row_number);
}

/// A shorter row is taken up by a longer one that holds each of its pairs,
/// whichever of the two is stored first: only the longer row is left.
pub proof fn lemma_row_subsumption(
    part: Seq<ExpandedPair>,
    part_number: u32,
    whole: Seq<ExpandedPair>,
    whole_number: u32,
)
    requires
        holds_all(whole, part),
        !holds_all(part, whole),
        part.len() != whole.len(),
    ensures
        stored(stored(Seq::empty(), part, part_number), whole, whole_number) == seq![
            RowView { pairs: whole, row_number: whole_number },
        ],
        stored(stored(Seq::empty(), whole, whole_number), part, part_number) == seq![
            RowView { pairs: whole, row_number: whole_number },
        ],
{
    reveal_with_fuel(without_parts, 3);
    reveal_with_fuel(insert_position, 3);
    let none = Seq::<RowView>::empty();
    let part_row = RowView { pairs: part, row_number: part_number };
    let whole_row = RowView { pairs: whole, row_number: whole_number };
    // the part first
    let grown = none.insert(0, part_row);
    assert(grown =~= seq![part_row]);
    assert(!is_partial_row(part, none));
    assert(stored(none, part, part_number) =~= seq![part_row]);
    let one = seq![part_row];
    assert(!is_partial_row(whole, one)) by {
        if is_partial_row(whole, one) {
            let r = choose|r: int| 0 <= r < one.len() && holds_all((#[trigger] one[r]).pairs, whole);
            assert(one[r] == part_row);
        }
    }
    let at = insert_position(one, whole_number, 0);
    assert(at == 0 || at == 1);
    let both = one.insert(at, whole_row);
    assert(both.len() == 2);
    assert(is_part_of(part_row, whole));
    assert(!is_part_of(whole_row, whole));
    if at == 0 {
        assert(both =~= seq![whole_row, part_row]);
        assert(without_parts(both, whole, 2) =~= seq![whole_row]);
    } else {
        assert(both =~= seq![part_row, whole_row]);
        assert(without_parts(both, whole, 2) =~= seq![whole_row]);
    }
    // the whole first
    let grown2 = none.insert(0, whole_row);
    assert(grown2 =~= seq![whole_row]);
    assert(!is_partial_row(whole, none));
    assert(stored(none, whole, whole_number) =~= seq![whole_row]);
    let one2 = seq![whole_row];
    assert(one2[0] == whole_row);
    assert(is_partial_row(part, one2));
}

/// A reader of RSS Expanded symbols. It holds the pairs that are being
/// read and the rows that were read and kept, and it is told where the rows
/// of the image start with an even pair.
pub struct RSSExpandedReader {
    pairs: Vec<ExpandedPair>,
    rows: Vec<ExpandedRow>,
    startFromEven: bool,
}

/// Reads the pairs that follow `pairs` in the row and puts them behind
/// them, up to the place where no pair follows.
pub fn extendPairs(
    row: &BitArray,
    pairs: &mut Vec<ExpandedPair>,
    rowNumber: u32,
    startFromEven: bool,
)
    requires
        row.wf(),
    ensures
        final(pairs)@ == extended(row@, old(pairs)@, rowNumber, startFromEven),
{
    let width: usize = row.getSize();
    loop
        invariant
            row.wf(),
            width == row@.len(),
            extended(row@, pairs@, rowNumber, startFromEven) == extended(
                row@,
                old(pairs)@,
                rowNumber,
                startFromEven,
            ),
        decreases row@.len() - search_offset(pairs@, None),
    {
        proof {
            lemma_next_pair(row@, pairs@, rowNumber, startFromEven);
        }
        match finder_search::retrieveNextPair(row, pairs, rowNumber, startFromEven) {
            Ok(pair) => {
                pairs.push(pair);
            },
            Err(_) => {
                // the row ends where no pair follows
                return ;
            },
        }
    }
}

impl RSSExpandedReader {
    /// The pairs that are being read.
    pub closed spec fn spec_pairs(&self) -> Seq<ExpandedPair> {
        self.pairs@
    }

    /// The rows that were read and kept.
    pub closed spec fn spec_rows(&self) -> Seq<RowView> {
        rows_view(self.rows@)
    }

    /// Whether rows start with an even pair.
    pub closed spec fn spec_start_from_even(&self) -> bool {
        self.startFromEven
    }

    /// A reader without pairs and without rows, for rows that start with an
    /// odd pair.
    pub fn new() -> (r: Self)
        ensures
            r.spec_pairs() == Seq::<ExpandedPair>::empty(),
            r.spec_rows() == Seq::<RowView>::empty(),
            !r.spec_start_from_even(),
    {
        let r = Self { pairs: Vec::new(), rows: Vec::new(), startFromEven: false };
        assert(r.spec_rows() =~= Seq::<RowView>::empty());
        r
    }

    /// Forgets the pairs and the rows: what is read next has nothing to do
    /// with what was read before.
    pub fn reset(&mut self)
        ensures
            final(self).spec_pairs() == Seq::<ExpandedPair>::empty(),
            final(self).spec_rows() == Seq::<RowView>::empty(),
            final(self).spec_start_from_even() == old(self).spec_start_from_even(),
    {
        self.pairs.clear();
        self.rows.clear();
        assert(self.spec_rows() =~= Seq::<RowView>::empty());
    }

    /// Makes the reader ready for a row: it forgets the pairs, keeps the
    /// rows, and is told whether the row starts with an even pair.
    pub fn startRow(&mut self, startFromEven: bool)
        ensures
            final(self).spec_pairs() == Seq::<ExpandedPair>::empty(),
            final(self).spec_rows() == old(self).spec_rows(),
            final(self).spec_start_from_even() == startFromEven,
    {
        self.pairs.clear();
        self.startFromEven = startFromEven;
    }

    /// The pairs that are being read.
    pub fn getPairs(&self) -> (r: Vec<ExpandedPair>)
        ensures
            r@ == self.spec_pairs(),
    {
        copyPairs(&self.pairs)
    }

    /// Replaces the pairs that are being read.
    pub fn setPairs(&mut self, pairs: Vec<ExpandedPair>)
        ensures
            final(self).spec_pairs() == pairs@,
            final(self).spec_rows() == old(self).spec_rows(),
            final(self).spec_start_from_even() == old(self).spec_start_from_even(),
    {
        self.pairs = pairs;
    }

    /// The rows that were read and kept.
    pub fn getRows(&self) -> (r: Vec<ExpandedRow>)
        ensures
            rows_view(r@) == self.spec_rows(),
    {
        let mut r: Vec<ExpandedRow> = Vec::new();
        let mut i: usize = 0;
        while i < self.rows.len()
            invariant
                i <= self.rows@.len(),
                r@.len() == i,
                forall|k: int| 0 <= k < i ==> (#[trigger] r@[k])@ == self.rows@[k]@,
            decreases self.rows@.len() - i,
        {
            r.push(self.rows[i].clone());
            i += 1;
        }
        assert(rows_view(r@) =~= rows_view(self.rows@));
        r
    }

    /// Reads the pair that follows `previousPairs` in the row.
    pub fn retrieveNextPair(
        &self,
        row: &BitArray,
        previousPairs: &Vec<ExpandedPair>,
        rowNumber: u32,
    ) -> (r: Result<ExpandedPair, Exceptions>)
        requires
            row.wf(),
        ensures
            r is Ok <==> next_pair(
                row@,
                previousPairs@,
                rowNumber,
                self.spec_start_from_even(),
            ) is Some,
            r is Ok ==> r->Ok_0 == next_pair(
                row@,
                previousPairs@,
                rowNumber,
                self.spec_start_from_even(),
            )->Some_0,
            r is Err ==> r->Err_0 == Exceptions::NotFoundException,
    {
        finder_search::retrieveNextPair(row, previousPairs, rowNumber, self.startFromEven)
    }

    /// Reads the character to the left or to the right of a finder pattern.
    pub fn decodeDataCharacter(
        &self,
        row: &BitArray,
        pattern: &FinderPattern,
        isOddPattern: bool,
        leftChar: bool,
    ) -> (r: Result<DataCharacter, Exceptions>)
        requires
            row.wf(),
            pattern.value <= 5,
            pattern.start <= pattern.end,
        ensures
            r is Ok <==> character_decoder::decoded_character(
                row@,
                *pattern,
                isOddPattern,
                leftChar,
            ) is Some,
            r is Ok ==> r->Ok_0 == character_decoder::decoded_character(
                row@,
                *pattern,
                isOddPattern,
                leftChar,
            )->Some_0,
            r is Err ==> r->Err_0 == Exceptions::NotFoundException,
    {
        character_decoder::decodeDataCharacter(row, pattern, isOddPattern, leftChar)
    }

    /// Whether the checksum of the pairs that are being read holds.
    pub fn checkChecksum(&self) -> (r: bool)
        ensures
            r == checksum_holds(self.spec_pairs()),
    {
        row_history::checkChecksum(&self.pairs)
    }

    /// Stores the pairs that are being read as row `rowNumber`.
    pub fn storeRow(&mut self, rowNumber: u32)
        ensures
            final(self).spec_rows() == stored(
                old(self).spec_rows(),
                old(self).spec_pairs(),
                rowNumber,
            ),
            final(self).spec_pairs() == old(self).spec_pairs(),
            final(self).spec_start_from_even() == old(self).spec_start_from_even(),
    {
        row_history::storeRow(&mut self.rows, &self.pairs, rowNumber);
    }

    /// Searches the rows for a symbol, in their order or in reverse. A
    /// history of more than 25 rows is cleared instead, and nothing is
    /// found. The pairs of the reader become those of the symbol, or none
    /// where the search finds none.
    pub fn checkRows(&mut self, reverse: bool) -> (r: Option<Vec<ExpandedPair>>)
        ensures
            r is Some <==> searched(old(self).spec_rows(), reverse).0 is Some,
            r is Some ==> r->Some_0@ == searched(old(self).spec_rows(), reverse).0->Some_0
                && final(self).spec_pairs() == r->Some_0@,
            final(self).spec_rows() == searched(old(self).spec_rows(), reverse).1,
            old(self).spec_rows().len() > 25 ==> r is None && final(self).spec_rows().len() == 0
                && final(self).spec_pairs() == old(self).spec_pairs(),
            r is None && old(self).spec_rows().len() <= 25 ==> final(self).spec_pairs()
                == Seq::<ExpandedPair>::empty(),
            final(self).spec_start_from_even() == old(self).spec_start_from_even(),
    {
        // The search tries the rows in all combinations, so the number of
        // rows is limited. A stacked symbol has up to 11 rows.
        if self.rows.len() > 25 {
            self.rows.clear();  // there is no chance to get a result any more
            assert(self.spec_rows() =~= Seq::<RowView>::empty());
            return None;
        }
        self.pairs.clear();
        let collected: Vec<ExpandedPair> = Vec::new();
        match row_history::checkRowsDetails(&self.rows, reverse, &collected, 0) {
            Some(found) => {
                self.pairs = copyPairs(&found);
                Some(found)
            },
            None => None,
        }
    }

    /// Reads the pairs of a row, behind the pairs that the reader holds,
    /// and looks for a symbol: in the row alone, and then in the rows that
    /// were kept. Fails where there is none.
    pub fn decodeRow2pairs(&mut self, rowNumber: u32, row: &BitArray) -> (r: Result<
        Vec<ExpandedPair>,
        Exceptions,
    >)
        requires
            row.wf(),
        ensures
            ({
                let outcome = decoded_row(
                    row@,
                    rowNumber,
                    old(self).spec_pairs(),
                    old(self).spec_rows(),
                    old(self).spec_start_from_even(),
                );
                &&& r is Ok <==> outcome.0 is Some
                &&& r is Ok ==> r->Ok_0@ == outcome.0->Some_0
                &&& final(self).spec_pairs() == outcome.1
                &&& final(self).spec_rows() == outcome.2
            }),
            r is Err ==> r->Err_0 == Exceptions::NotFoundException,
            final(self).spec_start_from_even() == old(self).spec_start_from_even(),
            in_row_order(old(self).spec_rows()) ==> in_row_order(final(self).spec_rows()),
    {
        proof {
            if in_row_order(self.spec_rows()) {
                lemma_decoded_row_order(
                    row@,
                    rowNumber,
                    self.spec_pairs(),
                    self.spec_rows(),
                    self.spec_start_from_even(),
                );
            }
        }
        extendPairs(row, &mut self.pairs, rowNumber, self.startFromEven);
        if self.pairs.len() == 0 {
            return Err(Exceptions::NotFoundException);
        }
        if self.checkChecksum() {
            return Ok(copyPairs(&self.pairs));
        }
        let tryStackedDecode: bool = self.rows.len() != 0;
        self.storeRow(rowNumber);
        if tryStackedDecode {
            // Where the image is turned by 180 degrees, the rows are in the
            // wrong order: try both.
            match self.checkRows(false) {
                Some(found) => {
                    return Ok(found);
                },
                None => {},
            }
            match self.checkRows(true) {
                Some(found) => {
                    return Ok(found);
                },
                None => {},
            }
        }
        Err(Exceptions::NotFoundException)
    }

    /// The symbology identifier of RSS Expanded symbols.
    pub fn symbologyIdentifier() -> (r: String)
        ensures
            r@ == "]e0"@,
    {
        "]e0".to_owned()
    }

    /// The points of a symbol: where the finder pattern of its first pair
    /// starts and ends, and where that of its last pair starts and ends.
    pub fn resultPoints(pairs: &Vec<ExpandedPair>) -> (r: Vec<RXingResultPoint>)
        requires
            pairs@.len() >= 1,
            pairs@[0].finder_pattern.end <= i64::MAX,
            pairs@[0].finder_pattern.start <= i64::MAX,
            pairs@.last().finder_pattern.end <= i64::MAX,
            pairs@.last().finder_pattern.start <= i64::MAX,
        ensures
            r@ == seq![
                RXingResultPoint {
                    x: pairs@[0].finder_pattern.start as i64,
                    y: pairs@[0].finder_pattern.row_number as i64,
                },
                RXingResultPoint {
                    x: pairs@[0].finder_pattern.end as i64,
                    y: pairs@[0].finder_pattern.row_number as i64,
                },
                RXingResultPoint {
                    x: pairs@.last().finder_pattern.start as i64,
                    y: pairs@.last().finder_pattern.row_number as i64,
                },
                RXingResultPoint {
                    x: pairs@.last().finder_pattern.end as i64,
                    y: pairs@.last().finder_pattern.row_number as i64,
                },
            ],
    {
        let firstPoints: [RXingResultPoint; 2] = pairs[0].finder_pattern.getRXingResultPoints();
        let lastPoints: [RXingResultPoint; 2] =
            pairs[pairs.len() - 1].finder_pattern.getRXingResultPoints();
        let a: RXingResultPoint = firstPoints[0];
        let b: RXingResultPoint = firstPoints[1];
        let c: RXingResultPoint = lastPoints[0];
        let d: RXingResultPoint = lastPoints[1];
        let r = vec![a, b, c, d];
        assert(r@ =~= seq![a, b, c, d]);
        r
    }

    /// Reads one row of an image from its start: the reader forgets its
    /// pairs, is told whether the row starts with an even pair, and reads
    /// the row.
    pub fn decodeRowPairs(&mut self, rowNumber: u32, row: &BitArray, startFromEven: bool) -> (r:
        Result<Vec<ExpandedPair>, Exceptions>)
        requires
            row.wf(),
        ensures
            ({
                let outcome = decoded_row(
                    row@,
                    rowNumber,
                    Seq::empty(),
                    old(self).spec_rows(),
                    startFromEven,
                );
                &&& r is Ok <==> outcome.0 is Some
                &&& r is Ok ==> r->Ok_0@ == outcome.0->Some_0
                &&& final(self).spec_pairs() == outcome.1
                &&& final(self).spec_rows() == outcome.2
            }),
            r is Err ==> r->Err_0 == Exceptions::NotFoundException,
            final(self).spec_start_from_even() == startFromEven,
    {
        self.startRow(startFromEven);
        self.decodeRow2pairs(rowNumber, row)
    }
}

impl Default for RSSExpandedReader {
    fn default() -> (r: Self)
        ensures
            r.spec_pairs() == Seq::<ExpandedPair>::empty(),
            r.spec_rows() == Seq::<RowView>::empty(),
            !r.spec_start_from_even(),
    {
        Self::new()
    }
}

} // verus!
