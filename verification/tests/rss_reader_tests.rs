use rxing::common::bit_array::BitArray;
use rxing::exceptions::Exceptions;
use rxing::oned::rss::data_character::DataCharacter;
use rxing::oned::rss::expanded::expanded_pair::{holdsAll, holdsPair, ExpandedPair};
use rxing::oned::rss::expanded::expanded_row::ExpandedRow;
use rxing::oned::rss::expanded::finder_search::{
    findNextPair, getNextSecondBar, locateFinder, parseFoundFinderPattern, retrieveNextPair,
    reverseCounters,
};
use rxing::oned::rss::expanded::row_history::{
    checkChecksum, checkRowsDetails, isPartialRow, isValidSequence, removePartialRows, storeRow,
};
use rxing::oned::rss::expanded::rss_expanded_reader::RSSExpandedReader;
use rxing::oned::rss::finder_pattern::FinderPattern;

const MODULE: usize = 4;

// A symbol of three pairs: a quiet zone, a guard, the pairs and a guard.
const SYMBOL: [usize; 67] = [
    10, 1, 1, 1, 3, 1, 1, 4, 5, 1, 1, 8, 4, 1, 1, 4, 1, 4, 2, 2, 1, 1, 2, 2, 5, 2, 1, 1, 1, 1, 4,
    1, 1, 4, 6, 3, 1, 2, 6, 2, 1, 1, 3, 1, 1, 2, 2, 1, 4, 2, 1, 4, 3, 6, 4, 1, 1, 4, 3, 1, 4, 1,
    1, 1, 2, 1, 11,
];

// The first two pairs of the symbol as a row of their own.
const UPPER_ROW: [usize; 47] = [
    10, 1, 1, 1, 3, 1, 1, 4, 5, 1, 1, 8, 4, 1, 1, 4, 1, 4, 2, 2, 1, 1, 2, 2, 5, 2, 1, 1, 1, 1, 4,
    1, 1, 4, 6, 3, 1, 2, 6, 2, 1, 1, 3, 1, 1, 1, 10,
];

// The third pair of the symbol as a row of its own.
const LOWER_ROW: [usize; 25] =
    [10, 1, 1, 2, 2, 1, 4, 2, 1, 4, 3, 6, 4, 1, 1, 4, 3, 1, 4, 1, 1, 1, 2, 1, 11];

fn row_of(modules: &[usize]) -> BitArray {
    let mut row = BitArray::new();
    let mut colour = false;
    for width in modules {
        for _ in 0..(*width * MODULE) {
            row.appendBit(colour);
        }
        colour = !colour;
    }
    row
}

fn pair(finder: u32, left: (i32, u32), right: Option<(i32, u32)>) -> ExpandedPair {
    ExpandedPair::new(
        Some(DataCharacter::new(left.0, left.1)),
        right.map(|r| DataCharacter::new(r.0, r.1)),
        FinderPattern::new(finder, 0, 0, 0),
    )
}

fn values_of(pairs: &[ExpandedPair]) -> Vec<(u32, i32, u32, Option<(i32, u32)>)> {
    pairs
        .iter()
        .map(|p| {
            let left = p.getLeftChar().expect("a pair has a left character");
            (
                p.getFinderPattern().getValue(),
                left.getValue(),
                left.getChecksumPortion(),
                p.getRightChar().map(|r| (r.getValue(), r.getChecksumPortion())),
            )
        })
        .collect()
}

fn symbol_values() -> Vec<(u32, i32, u32, Option<(i32, u32)>)> {
    vec![
        (0, 491, 0, Some((3682, 762))),
        (1, 3868, 2037, Some((3109, 1325))),
        (1, 1719, 1477, Some((768, 2064))),
    ]
}

fn single(finder: u32, value: i32) -> Vec<ExpandedPair> {
    vec![pair(finder, (value, 1), Some((value + 1, 2)))]
}

#[test]
fn checksum_of_a_sequence_of_pairs() {
    // four characters whose portions add up to 60
    let pairs = vec![pair(0, (60, 0), Some((7, 10))), pair(1, (8, 20), Some((9, 30)))];
    assert!(checkChecksum(&pairs));
    // five characters: 211 + (10 + 20 + 30 + 211 + 5) % 211
    let odd = vec![
        pair(0, (211 + 65, 0), Some((7, 10))),
        pair(1, (8, 20), Some((9, 30))),
        pair(1, (8, 216), None),
    ];
    assert!(checkChecksum(&odd));
}

#[test]
fn checksum_fails_once_a_portion_is_off_by_one() {
    let right = vec![pair(0, (60, 0), Some((7, 10))), pair(1, (8, 20), Some((9, 30)))];
    assert!(checkChecksum(&right));
    let wrong = [
        vec![pair(0, (60, 0), Some((7, 11))), pair(1, (8, 20), Some((9, 30)))],
        vec![pair(0, (60, 0), Some((7, 9))), pair(1, (8, 20), Some((9, 30)))],
        vec![pair(0, (60, 0), Some((7, 10))), pair(1, (8, 21), Some((9, 30)))],
        vec![pair(0, (60, 0), Some((7, 10))), pair(1, (8, 19), Some((9, 30)))],
        vec![pair(0, (60, 0), Some((7, 10))), pair(1, (8, 20), Some((9, 31)))],
        vec![pair(0, (60, 0), Some((7, 10))), pair(1, (8, 20), Some((9, 29)))],
        vec![pair(0, (61, 0), Some((7, 10))), pair(1, (8, 20), Some((9, 30)))],
    ];
    for pairs in wrong.iter() {
        assert!(!checkChecksum(pairs));
    }
    // what the check character itself adds to the checksum counts as well
    assert!(!checkChecksum(&vec![
        pair(0, (60, 1), Some((7, 10))),
        pair(1, (8, 20), Some((9, 30)))
    ]));
    assert!(checkChecksum(&vec![
        pair(0, (61, 1), Some((7, 10))),
        pair(1, (8, 20), Some((9, 30)))
    ]));
}

#[test]
fn checksum_counts_the_check_character() {
    // four characters; only the check character adds to the checksum
    let pairs = vec![pair(0, (1, 1), Some((0, 0))), pair(1, (0, 0), Some((0, 0)))];
    assert!(checkChecksum(&pairs));
    let none = vec![pair(0, (0, 0), Some((0, 0))), pair(1, (0, 0), Some((0, 0)))];
    assert!(checkChecksum(&none));
    let changed = vec![pair(0, (0, 1), Some((0, 0))), pair(1, (0, 0), Some((0, 0)))];
    assert!(!checkChecksum(&changed));
}

#[test]
fn checksum_of_short_sequences() {
    assert!(!checkChecksum(&Vec::new()));
    // without a check character there is no checksum
    let no_left = ExpandedPair::new(
        None,
        Some(DataCharacter::new(1, 0)),
        FinderPattern::new(0, 0, 0, 0),
    );
    assert!(!checkChecksum(&vec![no_left]));
    // one character: 211 * (1 - 4)
    assert!(checkChecksum(&vec![pair(0, (-633, 0), None)]));
    assert!(!checkChecksum(&vec![pair(0, (-422, 0), None)]));
    // two characters: 211 * (2 - 4) + 5
    assert!(checkChecksum(&vec![pair(0, (-417, 0), Some((1, 5)))]));
    // three characters, the last pair without a right character: 211 * (3 - 4) + 12
    assert!(checkChecksum(&vec![pair(0, (-199, 0), Some((1, 5))), pair(1, (2, 7), None)]));
    assert!(!checkChecksum(&vec![pair(0, (12, 0), Some((1, 5))), pair(1, (2, 7), None)]));
}

#[test]
fn finder_patterns_follow_a_known_order() {
    let sequence = |values: &[u32]| -> Vec<ExpandedPair> {
        values.iter().map(|v| pair(*v, (1, 1), Some((1, 1)))).collect()
    };
    assert!(isValidSequence(&sequence(&[])));
    assert!(isValidSequence(&sequence(&[0])));
    assert!(isValidSequence(&sequence(&[0, 0])));
    assert!(isValidSequence(&sequence(&[0, 1, 1])));
    assert!(isValidSequence(&sequence(&[0, 4, 1, 3, 4, 5])));
    assert!(isValidSequence(&sequence(&[0, 0, 1, 1, 2, 3, 3, 4, 4, 5, 5])));
    assert!(!isValidSequence(&sequence(&[1])));
    assert!(!isValidSequence(&sequence(&[0, 3])));
    assert!(!isValidSequence(&sequence(&[0, 1, 1, 0])));
    assert!(!isValidSequence(&sequence(&[0, 0, 1, 1, 2, 3, 3, 4, 4, 5, 5, 0])));
    assert!(!isValidSequence(&sequence(&[0, 0, 1, 1, 2, 3, 3, 4, 4, 5, 4])));
}

#[test]
fn pairs_are_the_same_wherever_they_were_found() {
    let here = ExpandedPair::new(
        Some(DataCharacter::new(5, 6)),
        None,
        FinderPattern::new(2, 10, 20, 1),
    );
    let there = ExpandedPair::new(
        Some(DataCharacter::new(5, 6)),
        None,
        FinderPattern::new(2, 30, 45, 7),
    );
    assert!(here.equals(&there));
    assert!(here.mustBeLast());
    assert!(!here.equals(&pair(2, (5, 6), Some((1, 1)))));
    assert!(!here.equals(&pair(3, (5, 6), None)));
    assert!(!here.equals(&pair(2, (5, 7), None)));
    assert!(!pair(2, (5, 6), Some((1, 1))).mustBeLast());
    let pairs = vec![pair(0, (1, 1), None), there];
    assert!(holdsPair(&pairs, &here));
    assert!(!holdsPair(&pairs, &pair(0, (1, 2), None)));
    assert!(holdsAll(&pairs, &vec![here, pair(0, (1, 1), None), here]));
    assert!(holdsAll(&pairs, &Vec::new()));
    assert!(!holdsAll(&pairs, &vec![here, pair(1, (1, 1), None)]));
    assert_eq!(there.getFinderPattern().getStartEnd(), [30, 45]);
    assert_eq!(there.getFinderPattern().getRowNumber(), 7);
}

#[test]
fn rows_are_equivalent_in_order_only() {
    let a = pair(0, (1, 1), Some((2, 2)));
    let b = pair(1, (3, 3), Some((4, 4)));
    let row = ExpandedRow::new(vec![a, b], 4);
    assert_eq!(row.getRowNumber(), 4);
    assert_eq!(row.getPairs().len(), 2);
    assert!(row.isEquivalent(&vec![a, b]));
    assert!(!row.isEquivalent(&vec![b, a]));
    assert!(!row.isEquivalent(&vec![a]));
    assert!(!row.isEquivalent(&vec![a, b, b]));
    assert!(row.clone().isEquivalent(&vec![a, b]));
}

#[test]
fn a_longer_row_takes_up_a_shorter_one() {
    let first = pair(0, (1, 1), Some((2, 2)));
    let second = pair(1, (3, 3), Some((4, 4)));
    let third = pair(1, (5, 5), Some((6, 6)));

    let mut reader = RSSExpandedReader::new();
    reader.setPairs(vec![first, second]);
    reader.storeRow(1);
    assert_eq!(reader.getRows().len(), 1);
    reader.setPairs(vec![first, second, third]);
    reader.storeRow(2);
    let rows = reader.getRows();
    assert_eq!(rows.len(), 1);
    assert_eq!(rows[0].getRowNumber(), 2);
    assert!(rows[0].isEquivalent(&vec![first, second, third]));

    let mut other = RSSExpandedReader::new();
    other.setPairs(vec![first, second, third]);
    other.storeRow(2);
    other.setPairs(vec![first, second]);
    other.storeRow(1);
    let rows = other.getRows();
    assert_eq!(rows.len(), 1);
    assert_eq!(rows[0].getRowNumber(), 2);
    assert!(rows[0].isEquivalent(&vec![first, second, third]));
}

#[test]
fn rows_are_stored_by_their_number() {
    let mut rows: Vec<ExpandedRow> = Vec::new();
    storeRow(&mut rows, &single(0, 10), 5);
    storeRow(&mut rows, &single(1, 20), 2);
    storeRow(&mut rows, &single(2, 30), 9);
    storeRow(&mut rows, &single(3, 40), 5);
    let numbers: Vec<u32> = rows.iter().map(|r| r.getRowNumber()).collect();
    assert_eq!(numbers, vec![2, 5, 5, 9]);
    assert!(rows[1].isEquivalent(&single(0, 10)));
    assert!(rows[2].isEquivalent(&single(3, 40)));
}

#[test]
fn a_row_is_not_stored_twice() {
    let mut rows: Vec<ExpandedRow> = Vec::new();
    storeRow(&mut rows, &single(0, 10), 5);
    storeRow(&mut rows, &single(1, 20), 8);
    // the same pairs as the row before
    storeRow(&mut rows, &single(0, 10), 6);
    // the same pairs as the row behind
    storeRow(&mut rows, &single(1, 20), 7);
    // a row that some row holds, be it far away
    storeRow(&mut rows, &single(0, 10), 20);
    let numbers: Vec<u32> = rows.iter().map(|r| r.getRowNumber()).collect();
    assert_eq!(numbers, vec![5, 8]);
}

#[test]
fn partial_rows() {
    let first = pair(0, (1, 1), Some((2, 2)));
    let second = pair(1, (3, 3), Some((4, 4)));
    let third = pair(1, (5, 5), Some((6, 6)));
    let mut rows = vec![
        ExpandedRow::new(vec![first], 1),
        ExpandedRow::new(vec![third, second], 2),
        ExpandedRow::new(vec![second, first, third], 3),
        ExpandedRow::new(vec![third], 4),
        ExpandedRow::new(vec![first, second], 5),
    ];
    assert!(isPartialRow(&vec![first, second], &rows));
    assert!(isPartialRow(&vec![third, third], &rows));
    assert!(isPartialRow(&Vec::new(), &rows));
    assert!(!isPartialRow(&vec![pair(2, (1, 1), None)], &rows));
    assert!(!isPartialRow(&vec![first], &Vec::new()));
    // rows of another length of which [first, second] holds every pair go
    removePartialRows(&vec![first, second], &mut rows);
    let numbers: Vec<u32> = rows.iter().map(|r| r.getRowNumber()).collect();
    assert_eq!(numbers, vec![2, 3, 4, 5]);
    removePartialRows(&vec![third, second, first], &mut rows);
    let numbers: Vec<u32> = rows.iter().map(|r| r.getRowNumber()).collect();
    assert_eq!(numbers, vec![3]);
}

#[test]
fn too_many_rows_are_given_up() {
    let mut reader = RSSExpandedReader::new();
    for i in 0..26 {
        reader.setPairs(single(1, 100 * i));
        reader.storeRow(i as u32);
    }
    assert_eq!(reader.getRows().len(), 26);
    reader.setPairs(single(0, 7));
    assert!(reader.checkRows(false).is_none());
    assert_eq!(reader.getRows().len(), 0);
    assert_eq!(reader.getPairs().len(), 1);
}

#[test]
fn twenty_five_rows_are_searched() {
    let mut reader = RSSExpandedReader::new();
    for i in 0..25 {
        reader.setPairs(single(1, 100 * i));
        reader.storeRow(i as u32);
    }
    reader.setPairs(single(0, 7));
    assert!(reader.checkRows(false).is_none());
    assert!(reader.checkRows(true).is_none());
    assert_eq!(reader.getRows().len(), 25);
    assert_eq!(reader.getPairs().len(), 0);
}

#[test]
fn rows_are_put_together() {
    // the check character asks for 211 * (6 - 4) + (10 + 20 + 30 + 40 + 50) % 211
    let first = vec![pair(0, (572, 0), Some((1, 10))), pair(1, (2, 20), Some((3, 30)))];
    let last = vec![pair(1, (4, 40), Some((5, 50)))];
    let noise = vec![pair(1, (6, 41), Some((7, 50)))];
    let rows = vec![
        ExpandedRow::new(first.clone(), 1),
        ExpandedRow::new(noise.clone(), 2),
        ExpandedRow::new(last.clone(), 3),
    ];
    let found = checkRowsDetails(&rows, false, &Vec::new(), 0).expect("the rows hold a symbol");
    assert_eq!(
        values_of(&found),
        vec![
            (0, 572, 0, Some((1, 10))),
            (1, 2, 20, Some((3, 30))),
            (1, 4, 40, Some((5, 50)))
        ]
    );
    assert!(checkRowsDetails(&rows, true, &Vec::new(), 0).is_none());
    assert!(checkRowsDetails(&rows, false, &Vec::new(), 1).is_none());
    assert!(checkRowsDetails(&rows, false, &first, 1).is_some());
    let turned = vec![
        ExpandedRow::new(last, 1),
        ExpandedRow::new(noise, 2),
        ExpandedRow::new(first, 3),
    ];
    assert!(checkRowsDetails(&turned, false, &Vec::new(), 0).is_none());
    let found = checkRowsDetails(&turned, true, &Vec::new(), 0).expect("the rows hold a symbol");
    assert_eq!(found.len(), 3);
    assert_eq!(found[2].getLeftChar(), Some(DataCharacter::new(4, 40)));
}

#[test]
fn reset_forgets_pairs_and_rows() {
    let mut reader = RSSExpandedReader::default();
    reader.setPairs(single(0, 10));
    reader.storeRow(3);
    assert_eq!(reader.getRows().len(), 1);
    assert_eq!(reader.getPairs().len(), 1);
    reader.startRow(true);
    assert_eq!(reader.getRows().len(), 1);
    assert_eq!(reader.getPairs().len(), 0);
    reader.setPairs(single(0, 10));
    reader.reset();
    assert_eq!(reader.getRows().len(), 0);
    assert_eq!(reader.getPairs().len(), 0);
}

#[test]
fn finder_patterns_of_a_row() {
    let row = row_of(&SYMBOL);
    // the first four runs that pass for a finder pattern are runs of a character
    let window = findNextPair(&row, &Vec::new(), None, false).expect("the row holds a window");
    assert_eq!((window.start, window.end), (72, 116));
    assert_eq!(window.counters, [16, 20, 4, 4]);
    assert!(parseFoundFinderPattern(&row, 3, true, &window).is_none());
    // the search goes on behind them
    let window = findNextPair(&row, &Vec::new(), Some(116), false).expect("the row holds a finder");
    assert_eq!((window.start, window.end), (116, 172));
    assert_eq!(window.counters, [32, 16, 4, 4]);
    let pattern = parseFoundFinderPattern(&row, 3, true, &window).expect("the finder is A");
    assert_eq!(pattern.getValue(), 0);
    assert_eq!(pattern.getStartEnd(), [112, 172]);
    assert_eq!(pattern.getRowNumber(), 3);
    assert_eq!(locateFinder(&row, &Vec::new(), 3, false).map(|p| p.getStartEnd()), Ok([112, 172]));
    // an even pattern is read in reverse
    let first = ExpandedPair::new(Some(DataCharacter::new(0, 0)), None, pattern);
    let window =
        findNextPair(&row, &vec![first], Some(308), false).expect("the row holds a finder");
    assert_eq!((window.start, window.end), (308, 356));
    assert_eq!(window.counters, [24, 16, 4, 4]);
    let pattern = parseFoundFinderPattern(&row, 3, false, &window).expect("the finder is B");
    assert_eq!(pattern.getValue(), 1);
    assert_eq!(pattern.getStartEnd(), [308, 368]);
    assert_eq!(locateFinder(&row, &vec![first], 3, false).map(|p| p.getStartEnd()), Ok([308, 368]));
    // behind the last finder pattern there is none
    assert_eq!(
        findNextPair(&row, &Vec::new(), Some(564), false).err(),
        Some(Exceptions::NotFoundException)
    );
    assert_eq!(
        findNextPair(&row, &Vec::new(), Some(5000), false).err(),
        Some(Exceptions::NotFoundException)
    );
    assert_eq!(
        locateFinder(&row, &Vec::new(), 3, false).map(|p| p.getValue()),
        Ok(0)
    );
}

#[test]
fn second_bar_and_reversed_counters() {
    let row = row_of(&[2, 1, 3, 1, 2]);
    // from a clear bit: the next clear run behind the next set one
    assert_eq!(getNextSecondBar(&row, 0), 12);
    // from a set bit: the next set run
    assert_eq!(getNextSecondBar(&row, 8), 24);
    assert_eq!(getNextSecondBar(&row, 25), 36);
    assert_eq!(getNextSecondBar(&row, 30), 36);
    let mut counters = [1usize, 2, 3, 4];
    reverseCounters(&mut counters);
    assert_eq!(counters, [4, 3, 2, 1]);
}

#[test]
fn pairs_of_a_row_one_by_one() {
    let row = row_of(&SYMBOL);
    let mut pairs: Vec<ExpandedPair> = Vec::new();
    for _ in 0..3 {
        let next = retrieveNextPair(&row, &pairs, 0, false).expect("the row holds three pairs");
        pairs.push(next);
    }
    assert_eq!(values_of(&pairs), symbol_values());
    assert_eq!(
        retrieveNextPair(&row, &pairs, 0, false).err(),
        Some(Exceptions::NotFoundException)
    );
    // read as a row that starts with an even pair, the row starts with the second pair
    let even = retrieveNextPair(&row, &Vec::new(), 0, true).expect("the row holds an even pair");
    assert_eq!(values_of(&[even]), vec![(1, 3868, 2037, Some((3109, 1325)))]);
}

#[test]
fn a_symbol_in_one_row() {
    let row = row_of(&SYMBOL);
    let mut reader = RSSExpandedReader::new();
    let pairs = reader.decodeRowPairs(7, &row, false).expect("the row holds a symbol");
    assert_eq!(values_of(&pairs), symbol_values());
    let finders: Vec<[usize; 2]> =
        pairs.iter().map(|p| p.getFinderPattern().getStartEnd()).collect();
    assert_eq!(finders, vec![[112, 172], [308, 368], [504, 564]]);
    assert!(pairs.iter().all(|p| p.getFinderPattern().getRowNumber() == 7));
    assert!(reader.checkChecksum());
    assert_eq!(reader.getPairs().len(), 3);
    assert_eq!(reader.getRows().len(), 0);
}

#[test]
fn a_symbol_read_from_right_to_left() {
    let mut row = row_of(&SYMBOL);
    row.reverse();
    let mut reader = RSSExpandedReader::new();
    assert!(reader.decodeRowPairs(0, &row, false).is_err());
    row.reverse();
    assert!(reader.decodeRowPairs(0, &row, false).is_ok());
}

#[test]
fn a_changed_run_is_not_a_symbol() {
    // one element of the second character is a module wider, the next one narrower
    let mut modules = SYMBOL;
    modules[14] += 1;
    modules[15] -= 1;
    let row = row_of(&modules);
    let mut reader = RSSExpandedReader::new();
    assert_eq!(
        reader.decodeRowPairs(0, &row, false).err(),
        Some(Exceptions::NotFoundException)
    );
    // the row is kept for a stacked symbol
    assert_eq!(reader.getRows().len(), 1);
    assert_eq!(reader.getRows()[0].getPairs().len(), 3);
    assert!(!reader.checkChecksum());
}

#[test]
fn a_row_that_ends_in_a_character() {
    // the row ends two modules behind the first finder pattern
    let mut modules = SYMBOL[..17].to_vec();
    modules.push(2);
    let row = row_of(&modules);
    assert_eq!(row.getSize(), 200);
    let alone = retrieveNextPair(&row, &Vec::new(), 0, false).expect("the row holds a pair");
    assert_eq!(values_of(&[alone]), vec![(0, 491, 0, None)]);
    assert!(alone.mustBeLast());
    // no pair follows a pair without a right character
    assert!(retrieveNextPair(&row, &vec![alone], 0, false).is_err());
    let mut reader = RSSExpandedReader::new();
    assert_eq!(
        reader.decodeRowPairs(0, &row, false).err(),
        Some(Exceptions::NotFoundException)
    );
    assert_eq!(reader.getRows().len(), 1);
    assert_eq!(reader.getRows()[0].getPairs().len(), 1);
    // a row that ends with the finder pattern holds no pair
    let short = row_of(&SYMBOL[..15]);
    assert_eq!(short.getSize(), 172);
    assert!(retrieveNextPair(&short, &Vec::new(), 0, false).is_err());
}

#[test]
fn an_empty_row_is_not_a_symbol() {
    let mut reader = RSSExpandedReader::new();
    assert!(reader.decodeRowPairs(0, &BitArray::new(), false).is_err());
    assert!(reader.decodeRowPairs(0, &BitArray::with_size(500), false).is_err());
    let mut black = BitArray::with_size(500);
    black.setRange(0, 500).expect("the range lies in the row");
    assert!(reader.decodeRowPairs(0, &black, true).is_err());
    assert_eq!(reader.getRows().len(), 0);
    assert_eq!(reader.getPairs().len(), 0);
}

#[test]
fn a_stacked_symbol() {
    let upper = row_of(&UPPER_ROW);
    let lower = row_of(&LOWER_ROW);
    let mut reader = RSSExpandedReader::new();
    assert_eq!(
        reader.decodeRowPairs(10, &upper, false).err(),
        Some(Exceptions::NotFoundException)
    );
    assert_eq!(reader.getRows().len(), 1);
    // the same row again does not add a row
    assert!(reader.decodeRowPairs(11, &upper, false).is_err());
    assert_eq!(reader.getRows().len(), 1);
    let pairs = reader.decodeRowPairs(20, &lower, false).expect("the rows hold a symbol");
    assert_eq!(values_of(&pairs), symbol_values());
    assert_eq!(pairs[2].getFinderPattern().getStartEnd(), [112, 172]);
    assert_eq!(pairs[2].getFinderPattern().getRowNumber(), 20);
    assert_eq!(reader.getRows().len(), 2);
    reader.reset();
    assert!(reader.decodeRowPairs(20, &lower, false).is_err());
    assert_eq!(reader.getRows().len(), 1);
}

#[test]
fn a_stacked_symbol_upside_down() {
    let upper = row_of(&UPPER_ROW);
    let lower = row_of(&LOWER_ROW);
    let mut reader = RSSExpandedReader::new();
    assert!(reader.decodeRowPairs(10, &lower, false).is_err());
    let pairs = reader.decodeRowPairs(20, &upper, false).expect("the rows hold a symbol");
    assert_eq!(values_of(&pairs), symbol_values());
}
