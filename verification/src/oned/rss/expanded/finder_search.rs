//! The search for the finder patterns of a row and for the pair of
//! characters around each.

use crate::common::bit_array::{lemma_next_equal, next_set, next_unset, BitArray};
use crate::exceptions::Exceptions;
use crate::oned::one_d_reader::{lemma_four_runs, runEnd, run_after, run_end, run_lengths};
use crate::oned::rss::abstract_rss_reader::{
    finder_ratio, finder_value, isFinderPattern, lemma_best_pattern, lengths_of, parseFinderValue,
};
use crate::oned::rss::data_character::DataCharacter;
use crate::oned::rss::expanded::character_decoder::{decodeDataCharacter, decoded_character};
use crate::oned::rss::expanded::expanded_pair::ExpandedPair;
use crate::oned::rss::finder_pattern::FinderPattern;
use vstd::prelude::*;

verus! {

/// Four runs that pass for elements 2 to 5 of a finder pattern: where they
/// start and end in the row, and their lengths. For a pattern that is read
/// in reverse, the lengths are in reverse order, last run first.
#[derive(Debug, Clone, Copy)]
pub struct FinderWindow {
    pub counters: [usize; 4],
    pub start: usize,
    pub end: usize,
}

/// Four run lengths in the order in which a finder pattern is read: as they
/// are, or last first where the pattern is reversed.
pub open spec fn oriented(c: Seq<int>, reversed: bool) -> Seq<int> {
    if reversed {
        seq![c[3], c[2], c[1], c[0]]
    } else {
        c
    }
}

/// The first four runs that pass for a finder pattern, among the windows of
/// four runs that start at the set run at `s`, at the set run after it, and
/// so on: where they start and end. Each of the four runs ends inside the
/// row.
pub open spec fn found_window(bits: Seq<bool>, s: int, reversed: bool) -> Option<(int, int)>
    decreases bits.len() - s,
{
    if s < 0 || s >= bits.len() {
        None
    } else if run_after(bits, s, 4) >= bits.len() {
        None
    } else if finder_ratio(oriented(run_lengths(bits, s, 4), reversed)) {
        Some((s, run_after(bits, s, 4)))
    } else {
        proof {
            lemma_four_runs(bits, s);
        }
        found_window(bits, run_after(bits, s, 2), reversed)
    }
}

/// Where the search for a finder pattern starts: at a forced offset, or
/// where the finder pattern of the last pair ends, or at the start of the
/// row.
pub open spec fn search_offset(previous: Seq<ExpandedPair>, forced: Option<usize>) -> int {
    match forced {
        Some(offset) => offset as int,
        None => if previous.len() == 0 {
            0
        } else {
            previous.last().finder_pattern.end as int
        },
    }
}

/// Whether the pair that follows `previous` is an odd one: the pairs of a
/// row are odd and even in turn, and the first is odd unless the row starts
/// from an even one.
pub open spec fn odd_pattern_next(previous: Seq<ExpandedPair>, start_from_even: bool) -> bool {
    (previous.len() % 2 == 0) != start_from_even
}

/// The start of the white run that ends just before bit `i`.
pub open spec fn white_start(bits: Seq<bool>, i: int) -> int
    decreases i,
{
    if i > 0 && !bits[i - 1] {
        white_start(bits, i - 1)
    } else {
        i
    }
}

/// The finder pattern that a window stands for. The window holds elements 2
/// to 5 of the pattern, with `counters` as their lengths in reading order.
/// Element 1 is the white run before the window for an odd pattern and the
/// run behind it for an even one, which is read in reverse. The pattern
/// reaches from the start of the one to the end of the other, and it is the
/// canonical pattern that elements 1 to 4 stand for.
pub open spec fn parsed_finder(
    bits: Seq<bool>,
    start: int,
    end: int,
    counters: Seq<int>,
    row_number: u32,
    odd_pattern: bool,
) -> Option<FinderPattern> {
    let first = if odd_pattern {
        white_start(bits, start)
    } else {
        start
    };
    let last = if odd_pattern {
        end
    } else {
        next_unset(bits, end + 1)
    };
    let first_counter = if odd_pattern {
        start - first
    } else {
        last - end
    };
    match finder_value(seq![first_counter, counters[0], counters[1], counters[2]]) {
        Some(value) => Some(
            FinderPattern {
                value: value as u32,
                start: first as usize,
                end: last as usize,
                row_number,
            },
        ),
        None => None,
    }
}

/// The start of the second next run at or behind `pos`: of the next set run
/// behind the run of `pos` where bit `pos` is set, of the next clear one
/// where it is clear.
pub open spec fn next_second_bar(bits: Seq<bool>, pos: int) -> int {
    if bits[pos] {
        next_set(bits, next_unset(bits, pos))
    } else {
        next_unset(bits, next_set(bits, pos))
    }
}

/// A window lies inside the row, at or behind the place from which it was
/// searched, and starts with a set bit.
pub proof fn lemma_found_window(bits: Seq<bool>, s: int, reversed: bool)
    ensures
        found_window(bits, s, reversed) is Some ==> {
            let w = found_window(bits, s, reversed)->Some_0;
            &&& 0 <= s <= w.0 < w.1 < bits.len()
            &&& w.1 == run_after(bits, w.0, 4)
            &&& finder_ratio(oriented(run_lengths(bits, w.0, 4), reversed))
        },
    decreases bits.len() - s,
{
    if 0 <= s < bits.len() {
        lemma_four_runs(bits, s);
        if run_after(bits, s, 4) < bits.len() && !finder_ratio(
            oriented(run_lengths(bits, s, 4), reversed),
        ) {
            lemma_found_window(bits, run_after(bits, s, 2), reversed);
        }
    }
}

/// The finder pattern that the search finds from `offset` on: that of the
/// first window that stands for a canonical pattern. After a window that
/// stands for none the search goes on from the second next run.
pub open spec fn located_finder(bits: Seq<bool>, offset: int, odd_pattern: bool, row_number: u32) -> Option<
    FinderPattern,
>
    decreases bits.len() - offset,
{
    if offset < 0 {
        None
    } else {
        match found_window(bits, next_set(bits, offset), !odd_pattern) {
            None => None,
            Some((start, end)) => match parsed_finder(
                bits,
                start,
                end,
                oriented(run_lengths(bits, start, 4), !odd_pattern),
                row_number,
                odd_pattern,
            ) {
                Some(pattern) => Some(pattern),
                None => {
                    proof {
                        lemma_next_equal(bits, offset, true);
                        lemma_found_window(bits, next_set(bits, offset), !odd_pattern);
                        lemma_second_bar(bits, start);
                    }
                    located_finder(bits, next_second_bar(bits, start), odd_pattern, row_number)
                },
            },
        }
    }
}

/// The second next run starts behind `pos`.
pub proof fn lemma_second_bar(bits: Seq<bool>, pos: int)
    requires
        0 <= pos < bits.len(),
    ensures
        pos < next_second_bar(bits, pos) <= bits.len(),
{
    lemma_next_equal(bits, pos, true);
    lemma_next_equal(bits, pos, false);
    if bits[pos] {
        lemma_next_equal(bits, next_unset(bits, pos), true);
    } else {
        lemma_next_equal(bits, next_set(bits, pos), false);
    }
}

/// The pair that follows the pairs `previous` in a row: the next finder
/// pattern behind them with the character to its left and, where it can be
/// read, the character to its right. There is none where no finder pattern
/// follows, where the left character cannot be read, or where the last of
/// `previous` has no right character and so ends its row.
pub open spec fn next_pair(
    bits: Seq<bool>,
    previous: Seq<ExpandedPair>,
    row_number: u32,
    start_from_even: bool,
) -> Option<ExpandedPair> {
    let odd_pattern = odd_pattern_next(previous, start_from_even);
    match located_finder(bits, search_offset(previous, None), odd_pattern, row_number) {
        None => None,
        Some(pattern) => match decoded_character(bits, pattern, odd_pattern, true) {
            None => None,
            Some(left) => if previous.len() > 0 && previous.last().right_char is None {
                None
            } else {
                Some(
                    ExpandedPair {
                        left_char: Some(left),
                        right_char: decoded_character(bits, pattern, odd_pattern, false),
                        finder_pattern: pattern,
                    },
                )
            },
        },
    }
}

/// A finder pattern that was located has a canonical value, lies in the
/// row, and ends behind the place from which it was searched.
pub proof fn lemma_located_finder(bits: Seq<bool>, offset: int, odd_pattern: bool, row_number: u32)
    requires
        bits.len() <= usize::MAX,
    ensures
        located_finder(bits, offset, odd_pattern, row_number) is Some ==> {
            let p = located_finder(bits, offset, odd_pattern, row_number)->Some_0;
            &&& p.value <= 5
            &&& p.start < p.end <= bits.len()
            &&& offset < p.end
            &&& p.row_number == row_number
        },
    decreases bits.len() - offset,
{
    if offset >= 0 {
        lemma_next_equal(bits, offset, true);
        lemma_found_window(bits, next_set(bits, offset), !odd_pattern);
        match found_window(bits, next_set(bits, offset), !odd_pattern) {
            None => {},
            Some((start, end)) => {
                let counters = oriented(run_lengths(bits, start, 4), !odd_pattern);
                lemma_white_start(bits, start);
                lemma_next_equal(bits, end + 1, false);
                let first = if odd_pattern {
                    white_start(bits, start)
                } else {
                    start
                };
                let first_counter = if odd_pattern {
                    start - first
                } else {
                    next_unset(bits, end + 1) - end
                };
                lemma_best_pattern(
                    seq![first_counter, counters[0], counters[1], counters[2]],
                    6,
                );
                if parsed_finder(bits, start, end, counters, row_number, odd_pattern) is None {
                    lemma_second_bar(bits, start);
                    lemma_located_finder(
                        bits,
                        next_second_bar(bits, start),
                        odd_pattern,
                        row_number,
                    );
                }
            },
        }
    }
}

/// The white run before bit `i` starts at or before `i`.
pub proof fn lemma_white_start(bits: Seq<bool>, i: int)
    requires
        0 <= i,
    ensures
        0 <= white_start(bits, i) <= i,
    decreases i,
{
    if i > 0 && !bits[i - 1] {
        lemma_white_start(bits, i - 1);
    }
}

/// Reverses the order of four run lengths.
pub fn reverseCounters(counters: &mut [usize; 4])
    ensures
        lengths_of(*final(counters)) == oriented(lengths_of(*old(counters)), true),
{
    let length: usize = 4;
    let mut i: usize = 0;
    while i < length / 2
        invariant
            length == 4,
            i <= 2,
            forall|k: int| 0 <= k < i ==> #[trigger] counters@[k] == old(counters)@[3 - k],
            forall|k: int| 4 - i <= k < 4 ==> #[trigger] counters@[k] == old(counters)@[3 - k],
            forall|k: int| i <= k < 4 - i ==> #[trigger] counters@[k] == old(counters)@[k],
        decreases 2 - i,
    {
        let tmp: usize = counters[i];
        counters[i] = counters[length - i - 1];
        counters[length - i - 1] = tmp;
        i += 1;
    }
    assert(lengths_of(*counters) =~= oriented(lengths_of(*old(counters)), true));
}

/// The start of the second next run at or behind `initialPos`.
pub fn getNextSecondBar(row: &BitArray, initialPos: usize) -> (r: usize)
    requires
        row.wf(),
        initialPos < row@.len(),
    ensures
        r == next_second_bar(row@, initialPos as int),
        initialPos < r <= row@.len(),
{
    proof {
        lemma_second_bar(row@, initialPos as int);
    }
    let currentPos: usize;
    if row.get(initialPos) {
        let between: usize = row.getNextUnset(initialPos);
        currentPos = row.getNextSet(between);
    } else {
        let between: usize = row.getNextSet(initialPos);
        currentPos = row.getNextUnset(between);
    }
    currentPos
}

/// Searches the row for four runs that pass for a finder pattern, from the
/// forced offset, or from the end of the last finder pattern, or from the
/// start of the row. Fails where the row ends before such runs are found.
pub fn findNextPair(
    row: &BitArray,
    previousPairs: &Vec<ExpandedPair>,
    forcedOffset: Option<usize>,
    startFromEven: bool,
) -> (r: Result<FinderWindow, Exceptions>)
    requires
        row.wf(),
    ensures
        r is Ok <==> found_window(
            row@,
            next_set(row@, search_offset(previousPairs@, forcedOffset)),
            !odd_pattern_next(previousPairs@, startFromEven),
        ) is Some,
        r is Ok ==> {
            let w = found_window(
                row@,
                next_set(row@, search_offset(previousPairs@, forcedOffset)),
                !odd_pattern_next(previousPairs@, startFromEven),
            )->Some_0;
            &&& r->Ok_0.start == w.0
            &&& r->Ok_0.end == w.1
            &&& r->Ok_0.start < r->Ok_0.end < row@.len()
            &&& lengths_of(r->Ok_0.counters) == oriented(
                run_lengths(row@, w.0, 4),
                !odd_pattern_next(previousPairs@, startFromEven),
            )
        },
        r is Err ==> r->Err_0 == Exceptions::NotFoundException,
{
    let width: usize = row.getSize();
    let rowOffset: usize = match forcedOffset {
        Some(offset) => offset,
        None => if previousPairs.len() == 0 {
            0
        } else {
            previousPairs[previousPairs.len() - 1].finder_pattern.end
        },
    };
    let mut searchingEvenPair: bool = previousPairs.len() % 2 != 0;
    if startFromEven {
        searchingEvenPair = !searchingEvenPair;
    }
    let ghost from = next_set(row@, rowOffset as int);
    let mut patternStart: usize = row.getNextSet(rowOffset);
    proof {
        lemma_found_window(row@, from, searchingEvenPair);
    }
    while patternStart < width
        invariant
            row.wf(),
            width == row@.len(),
            patternStart <= width,
            from == next_set(row@, search_offset(previousPairs@, forcedOffset)),
            searchingEvenPair == !odd_pattern_next(previousPairs@, startFromEven),
            found_window(row@, patternStart as int, searchingEvenPair) == found_window(
                row@,
                from,
                searchingEvenPair,
            ),
        decreases width - patternStart,
    {
        let ghost s = patternStart as int;
        proof {
            lemma_four_runs(row@, s);
        }
        let first: usize = runEnd(row, patternStart);
        if first >= width {
            return Err(Exceptions::NotFoundException);
        }
        let second: usize = runEnd(row, first);
        if second >= width {
            return Err(Exceptions::NotFoundException);
        }
        let third: usize = runEnd(row, second);
        if third >= width {
            return Err(Exceptions::NotFoundException);
        }
        let fourth: usize = runEnd(row, third);
        if fourth >= width {
            return Err(Exceptions::NotFoundException);
        }
        let mut counters: [usize; 4] = [
            first - patternStart,
            second - first,
            third - second,
            fourth - third,
        ];
        assert(lengths_of(counters) =~= run_lengths(row@, s, 4));
        if searchingEvenPair {
            reverseCounters(&mut counters);
        }
        if isFinderPattern(&counters) {
            return Ok(FinderWindow { counters, start: patternStart, end: fourth });
        }
        patternStart = second;
    }
    Err(Exceptions::NotFoundException)
}

/// The finder pattern that a window stands for, if it stands for one.
pub fn parseFoundFinderPattern(
    row: &BitArray,
    rowNumber: u32,
    oddPattern: bool,
    window: &FinderWindow,
) -> (r: Option<FinderPattern>)
    requires
        row.wf(),
        window.start < window.end < row@.len(),
    ensures
        r == parsed_finder(
            row@,
            window.start as int,
            window.end as int,
            lengths_of(window.counters),
            rowNumber,
            oddPattern,
        ),
        r is Some ==> r->Some_0.value <= 5 && r->Some_0.start < r->Some_0.end <= row@.len()
            && r->Some_0.end >= window.end,
{
    // The window holds elements 2 to 5
    let firstCounter: usize;
    let start: usize;
    let end: usize;
    if oddPattern {
        // For an odd pattern, element 1 lies before the window
        let mut firstElementStart: usize = window.start;
        while firstElementStart > 0 && !row.get(firstElementStart - 1)
            invariant
                row.wf(),
                firstElementStart <= window.start < row@.len(),
                white_start(row@, window.start as int) == white_start(
                    row@,
                    firstElementStart as int,
                ),
            decreases firstElementStart,
        {
            firstElementStart -= 1;
        }
        firstCounter = window.start - firstElementStart;
        start = firstElementStart;
        end = window.end;
    } else {
        // An even pattern is reversed, so element 1 lies behind the window
        start = window.start;
        let width: usize = row.getSize();
        assert(window.end < width);
        end = row.getNextUnset(window.end + 1);
        firstCounter = end - window.end;
    }
    // Make the counters hold elements 1 to 4
    let counters: [usize; 4] = [
        firstCounter,
        window.counters[0],
        window.counters[1],
        window.counters[2],
    ];
    assert(lengths_of(counters) =~= seq![
        firstCounter as int,
        lengths_of(window.counters)[0],
        lengths_of(window.counters)[1],
        lengths_of(window.counters)[2],
    ]);
    match parseFinderValue(&counters) {
        Ok(value) => Some(FinderPattern::new(value, start, end, rowNumber)),
        Err(_) => None,
    }
}

/// Searches the row for the next finder pattern behind `previousPairs`.
/// Fails where the row ends before one is found.
pub fn locateFinder(
    row: &BitArray,
    previousPairs: &Vec<ExpandedPair>,
    rowNumber: u32,
    startFromEven: bool,
) -> (r: Result<FinderPattern, Exceptions>)
    requires
        row.wf(),
    ensures
        r is Ok <==> located_finder(
            row@,
            search_offset(previousPairs@, None),
            odd_pattern_next(previousPairs@, startFromEven),
            rowNumber,
        ) is Some,
        r is Ok ==> r->Ok_0 == located_finder(
            row@,
            search_offset(previousPairs@, None),
            odd_pattern_next(previousPairs@, startFromEven),
            rowNumber,
        )->Some_0,
        r is Ok ==> r->Ok_0.value <= 5 && r->Ok_0.start < r->Ok_0.end <= row@.len()
            && search_offset(previousPairs@, None) < r->Ok_0.end,
        r is Err ==> r->Err_0 == Exceptions::NotFoundException,
{
    let width: usize = row.getSize();
    let mut isOddPattern: bool = previousPairs.len() % 2 == 0;
    if startFromEven {
        isOddPattern = !isOddPattern;
    }
    let ghost target = located_finder(
        row@,
        search_offset(previousPairs@, None),
        isOddPattern,
        rowNumber,
    );
    proof {
        lemma_located_finder(row@, search_offset(previousPairs@, None), isOddPattern, rowNumber);
    }
    let mut forcedOffset: Option<usize> = None;
    loop
        invariant
            row.wf(),
            width == row@.len(),
            isOddPattern == odd_pattern_next(previousPairs@, startFromEven),
            target == located_finder(
                row@,
                search_offset(previousPairs@, None),
                isOddPattern,
                rowNumber,
            ),
            target == located_finder(
                row@,
                search_offset(previousPairs@, forcedOffset),
                isOddPattern,
                rowNumber,
            ),
            target is Some ==> target->Some_0.value <= 5 && target->Some_0.start
                < target->Some_0.end <= row@.len() && search_offset(previousPairs@, None)
                < target->Some_0.end,
            forcedOffset is Some ==> forcedOffset->Some_0 <= row@.len(),
        decreases row@.len() - search_offset(previousPairs@, forcedOffset),
    {
        let ghost offset = search_offset(previousPairs@, forcedOffset);
        let window: FinderWindow = match findNextPair(
            row,
            previousPairs,
            forcedOffset,
            startFromEven,
        ) {
            Ok(window) => window,
            Err(e) => {
                return Err(e);
            },
        };
        proof {
            lemma_next_equal(row@, offset, true);
            lemma_found_window(row@, next_set(row@, offset), !isOddPattern);
        }
        match parseFoundFinderPattern(row, rowNumber, isOddPattern, &window) {
            Some(pattern) => {
                return Ok(pattern);
            },
            None => {
                forcedOffset = Some(getNextSecondBar(row, window.start));
            },
        }
    }
}

/// Reads the pair that follows `previousPairs` in the row. Fails where no
/// finder pattern follows, where the character to its left cannot be read,
/// or where the last of `previousPairs` ends its row.
pub fn retrieveNextPair(
    row: &BitArray,
    previousPairs: &Vec<ExpandedPair>,
    rowNumber: u32,
    startFromEven: bool,
) -> (r: Result<ExpandedPair, Exceptions>)
    requires
        row.wf(),
    ensures
        r is Ok <==> next_pair(row@, previousPairs@, rowNumber, startFromEven) is Some,
        r is Ok ==> r->Ok_0 == next_pair(row@, previousPairs@, rowNumber, startFromEven)->Some_0,
        r is Ok ==> r->Ok_0.left_char is Some && r->Ok_0.finder_pattern.value <= 5
            && r->Ok_0.finder_pattern.end <= row@.len() && search_offset(previousPairs@, None)
            < r->Ok_0.finder_pattern.end,
        r is Err ==> r->Err_0 == Exceptions::NotFoundException,
{
    let mut isOddPattern: bool = previousPairs.len() % 2 == 0;
    if startFromEven {
        isOddPattern = !isOddPattern;
    }
    let pattern: FinderPattern = match locateFinder(row, previousPairs, rowNumber, startFromEven) {
        Ok(pattern) => pattern,
        Err(e) => {
            return Err(e);
        },
    };
    // Where a stacked symbol is split over rows, there is no way to tell
    // whether this pair can be the last one.
    let leftChar: DataCharacter = match decodeDataCharacter(row, &pattern, isOddPattern, true) {
        Ok(c) => c,
        Err(e) => {
            return Err(e);
        },
    };
    if previousPairs.len() > 0 && previousPairs[previousPairs.len() - 1].mustBeLast() {
        return Err(Exceptions::NotFoundException);
    }
    let rightChar: Option<DataCharacter> = match decodeDataCharacter(
        row,
        &pattern,
        isOddPattern,
        false,
    ) {
        Ok(c) => Some(c),
        Err(_) => None,
    };
    Ok(ExpandedPair::new(Some(leftChar), rightChar, pattern))
}

} // verus!
