//! The reading of one data character: eight runs beside a finder pattern
//! become eight element widths in modules, and those a value and a part of
//! the checksum.
//!
//! A character is 17 modules wide. All measures are exact: a run of
//! `counter` pixels in a character of `sum` pixels is `17 * counter / sum`
//! modules wide, and every comparison with such a ratio is made on whole
//! numbers.

use crate::common::bit_array::BitArray;
use crate::exceptions::Exceptions;
use crate::oned::one_d_reader::{
    recordPattern, recordPatternInReverse, recorded, recorded_in_reverse,
};
use crate::oned::rss::abstract_rss_reader::{
    decrement, distance, errors_of, first_greatest, first_least, increment, lemma_first_extremes,
    total,
};
use crate::oned::rss::data_character::DataCharacter;
use crate::oned::rss::expanded::tables::{weight, weightAt, EVEN_TOTAL_SUBSET, GSUM, SYMBOL_WIDEST};
use crate::oned::rss::finder_pattern::FinderPattern;
use crate::oned::rss::rss_utils::{getRSSvalue, rss_value, step_bound, widths_of};
use vstd::prelude::*;

verus! {

/// The sum of eight run lengths.
pub open spec fn total8(c: Seq<int>) -> int {
    c[0] + c[1] + c[2] + c[3] + c[4] + c[5] + c[6] + c[7]
}

/// The width of a character of `sum` pixels fits a finder pattern of
/// `finder_width` pixels: a module of the character, a 17th of it, differs
/// from a module of the pattern, a 15th of it, by at most 30% of the latter.
pub open spec fn width_fits(sum: int, finder_width: int) -> bool {
    10 * distance(15 * sum, 17 * finder_width) <= 51 * finder_width
}

/// The number of modules that a run of `counter` pixels stands for in a
/// character of `sum` pixels: its width in modules rounded to the nearest
/// whole number, halves up, and held between 1 and 8. There is none where
/// the width is less than 0.3 or more than 8.7 modules.
pub open spec fn module_count(counter: int, sum: int) -> Option<int> {
    if 170 * counter < 3 * sum || 170 * counter > 87 * sum {
        None
    } else if 34 * counter < 3 * sum {
        Some(1)
    } else if 34 * counter < 5 * sum {
        Some(2)
    } else if 34 * counter < 7 * sum {
        Some(3)
    } else if 34 * counter < 9 * sum {
        Some(4)
    } else if 34 * counter < 11 * sum {
        Some(5)
    } else if 34 * counter < 13 * sum {
        Some(6)
    } else if 34 * counter < 15 * sum {
        Some(7)
    } else {
        Some(8)
    }
}

/// How far a run of `counter` pixels is above `count` modules, in 17ths of
/// a pixel of a character of `sum` pixels. Of two runs in one character the
/// one with the greater error was rounded down more.
pub open spec fn rounding_error(counter: int, sum: int, count: int) -> int {
    17 * counter - count * sum
}

/// A width between 0.3 and 8.7 modules has a module count, and no other:
/// 0.3 modules count as one module and 8.7 as eight.
pub proof fn lemma_module_count_tolerance(counter: int, sum: int)
    requires
        0 <= counter,
        0 < sum,
    ensures
        module_count(counter, sum) is Some <==> 3 * sum <= 170 * counter <= 87 * sum,
        170 * counter == 3 * sum ==> module_count(counter, sum) == Some(1int),
        170 * counter == 87 * sum ==> module_count(counter, sum) == Some(8int),
        module_count(counter, sum) is Some ==> 1 <= module_count(counter, sum)->Some_0 <= 8,
{
}

/// The module counts of the eight runs `c`, where each has one.
pub open spec fn module_counts(c: Seq<int>) -> Option<Seq<int>> {
    if forall|i: int| 0 <= i < 8 ==> (#[trigger] module_count(c[i], total8(c))) is Some {
        Some(Seq::new(8, |i: int| module_count(c[i], total8(c))->Some_0))
    } else {
        None
    }
}

/// The rounding errors of the eight runs `c` against the counts `counts`.
pub open spec fn rounding_errors(c: Seq<int>, counts: Seq<int>) -> Seq<int> {
    Seq::new(8, |i: int| rounding_error(c[i], total8(c), counts[i]))
}

/// The four of eight numbers that belong to the odd elements: the first,
/// third, fifth and seventh.
pub open spec fn odd_part(v: Seq<int>) -> Seq<int> {
    seq![v[0], v[2], v[4], v[6]]
}

/// The four of eight numbers that belong to the even elements.
pub open spec fn even_part(v: Seq<int>) -> Seq<int> {
    seq![v[1], v[3], v[5], v[7]]
}

/// Which of the odd and of the even counts have to grow or shrink by one so
/// that the odd counts add up to an even number between 4 and 13, the even
/// counts to an odd one, and both to `modules`: whether to add to the odd
/// counts, to take from them, to add to the even counts, to take from them.
/// There is no answer where the sums are off by more than one in all or
/// where the parities do not allow it.
pub open spec fn adjustment(odd_sum: int, even_sum: int, modules: int) -> Option<
    (bool, bool, bool, bool),
> {
    let grow_odd = odd_sum < 4;
    let shrink_odd = odd_sum > 13;
    let grow_even = even_sum < 4;
    let shrink_even = even_sum > 13;
    let mismatch = odd_sum + even_sum - modules;
    let odd_parity_bad = odd_sum % 2 == 1;
    let even_parity_bad = even_sum % 2 == 0;
    if mismatch == 1 {
        if odd_parity_bad {
            if even_parity_bad {
                None
            } else {
                Some((grow_odd, true, grow_even, shrink_even))
            }
        } else {
            if !even_parity_bad {
                None
            } else {
                Some((grow_odd, shrink_odd, grow_even, true))
            }
        }
    } else if mismatch == -1 {
        if odd_parity_bad {
            if even_parity_bad {
                None
            } else {
                Some((true, shrink_odd, grow_even, shrink_even))
            }
        } else {
            if !even_parity_bad {
                None
            } else {
                Some((grow_odd, shrink_odd, true, shrink_even))
            }
        }
    } else if mismatch == 0 {
        if odd_parity_bad {
            if !even_parity_bad {
                None
            } else if odd_sum < even_sum {
                Some((true, shrink_odd, grow_even, true))
            } else {
                Some((grow_odd, true, true, shrink_even))
            }
        } else {
            if even_parity_bad {
                None
            } else {
                Some((grow_odd, shrink_odd, grow_even, shrink_even))
            }
        }
    } else {
        None
    }
}

/// `v` with `by` added to the number at `at`.
pub open spec fn bumped(v: Seq<int>, at: int, by: int) -> Seq<int> {
    v.update(at, v[at] + by)
}

/// The odd and even counts after the adjustment. A count that grows is the
/// one that was rounded down the most, a count that shrinks the one that was
/// rounded up the most. There are none where there is no adjustment or
/// where one set of counts would have to grow and to shrink.
///
/// The even count that grows is chosen by the rounding errors of the odd
/// elements, not by those of the even ones, while the even count that
/// shrinks is chosen by those of the even elements.
pub open spec fn adjusted(
    odd: Seq<int>,
    even: Seq<int>,
    odd_errors: Seq<int>,
    even_errors: Seq<int>,
    modules: int,
) -> Option<(Seq<int>, Seq<int>)> {
    match adjustment(total(odd), total(even), modules) {
        None => None,
        Some((grow_odd, shrink_odd, grow_even, shrink_even)) => {
            if (grow_odd && shrink_odd) || (grow_even && shrink_even) {
                None
            } else {
                let new_odd = if grow_odd {
                    bumped(odd, first_greatest(odd_errors, 4), 1)
                } else if shrink_odd {
                    bumped(odd, first_least(odd_errors, 4), -1)
                } else {
                    odd
                };
                let new_even = if grow_even {
                    bumped(even, first_greatest(odd_errors, 4), 1)
                } else if shrink_even {
                    bumped(even, first_least(even_errors, 4), -1)
                } else {
                    even
                };
                Some((new_odd, new_even))
            }
        },
    }
}

/// Counts whose sums are both between 4 and 13 add up, once they are
/// adjusted, to the modules of the character, the odd counts to an even
/// number and the even counts to an odd one.
pub proof fn lemma_adjusted_totals(
    odd: Seq<int>,
    even: Seq<int>,
    odd_errors: Seq<int>,
    even_errors: Seq<int>,
    modules: int,
)
    requires
        odd.len() == 4,
        even.len() == 4,
        odd_errors.len() == 4,
        even_errors.len() == 4,
        4 <= total(odd) <= 13,
        4 <= total(even) <= 13,
        adjusted(odd, even, odd_errors, even_errors, modules) is Some,
    ensures
        ({
            let counts = adjusted(odd, even, odd_errors, even_errors, modules)->Some_0;
            &&& total(counts.0) + total(counts.1) == modules
            &&& total(counts.0) % 2 == 0
            &&& total(counts.1) % 2 == 1
        }),
{
    lemma_first_extremes(odd_errors, 4);
    lemma_first_extremes(even_errors, 4);
}

/// The character is not the left one of the first finder pattern of a
/// symbol, pattern A read as an odd pattern: that one holds the check
/// character and gives nothing to the checksum.
pub open spec fn not_a1_left(finder_value: int, odd_pattern: bool, left: bool) -> bool {
    !(finder_value == 0 && odd_pattern && left)
}

/// The row of the checksum weights for a character beside finder pattern
/// `finder_value`.
pub open spec fn weight_row(finder_value: int, odd_pattern: bool, left: bool) -> int {
    4 * finder_value + (if odd_pattern {
        0int
    } else {
        2int
    }) + (if left {
        0int
    } else {
        1int
    }) - 1
}

/// What a character with the counts `odd` and `even` adds to the checksum:
/// each count times its weight in row `row`.
pub open spec fn checksum_portion_of(odd: Seq<int>, even: Seq<int>, row: int) -> int {
    odd[0] * weight(row, 0) + even[0] * weight(row, 1) + odd[1] * weight(row, 2) + even[1]
        * weight(row, 3) + odd[2] * weight(row, 4) + even[2] * weight(row, 5) + odd[3] * weight(
        row,
        6,
    ) + even[3] * weight(row, 7)
}

/// The value of a character with the counts `odd` and `even`. The sum of
/// the odd counts, an even number from 4 to 12, picks one of five groups;
/// the value is the place of the odd counts among the odd patterns of the
/// group times the number of its even patterns, plus the place of the even
/// counts, plus the number of characters in the groups before.
pub open spec fn character_value(odd: Seq<int>, even: Seq<int>) -> Option<int> {
    let odd_sum = total(odd);
    if odd_sum % 2 != 0 || odd_sum > 13 || odd_sum < 4 {
        None
    } else {
        let group = (13 - odd_sum) / 2;
        let odd_widest = SYMBOL_WIDEST[group] as int;
        Some(
            rss_value(odd, odd_widest, true) * EVEN_TOTAL_SUBSET[group] + rss_value(
                even,
                9 - odd_widest,
                false,
            ) + GSUM[group],
        )
    }
}

/// The character that the eight runs `c` stand for beside a finder pattern
/// that is `finder_width` pixels wide and stands for the canonical pattern
/// `finder_value`; `c[0]` is the run farthest from the finder pattern.
pub open spec fn character_of(
    c: Seq<int>,
    finder_width: int,
    finder_value: int,
    odd_pattern: bool,
    left: bool,
) -> Option<DataCharacter> {
    if !width_fits(total8(c), finder_width) {
        None
    } else {
        match module_counts(c) {
            None => None,
            Some(counts) => {
                let errors = rounding_errors(c, counts);
                match adjusted(
                    odd_part(counts),
                    even_part(counts),
                    odd_part(errors),
                    even_part(errors),
                    17,
                ) {
                    None => None,
                    Some((odd, even)) => match character_value(odd, even) {
                        None => None,
                        Some(value) => Some(
                            DataCharacter {
                                value: value as i32,
                                checksum_portion: (if not_a1_left(finder_value, odd_pattern, left) {
                                    checksum_portion_of(
                                        odd,
                                        even,
                                        weight_row(finder_value, odd_pattern, left),
                                    )
                                } else {
                                    0
                                }) as u32,
                            },
                        ),
                    },
                }
            },
        }
    }
}

/// The runs of a row that make up the character to the left or to the right
/// of a finder pattern, the run farthest from the pattern first.
pub open spec fn character_runs(bits: Seq<bool>, pattern: FinderPattern, left: bool) -> Option<
    Seq<int>,
> {
    if left {
        if pattern.start < bits.len() {
            recorded_in_reverse(bits, pattern.start as int, 8)
        } else {
            None
        }
    } else {
        match recorded(bits, pattern.end as int, 8) {
            Some(c) => Some(c.reverse()),
            None => None,
        }
    }
}

/// The character that stands in a row to the left or to the right of a
/// finder pattern.
pub open spec fn decoded_character(
    bits: Seq<bool>,
    pattern: FinderPattern,
    odd_pattern: bool,
    left: bool,
) -> Option<DataCharacter> {
    match character_runs(bits, pattern, left) {
        None => None,
        Some(c) => character_of(c, pattern.end - pattern.start, pattern.value as int, odd_pattern, left),
    }
}

/// The numbers of eight run lengths.
pub open spec fn lengths8(counters: [usize; 8]) -> Seq<int> {
    counters@.map_values(|c: usize| c as int)
}

/// The module count of one run.
fn moduleCount(counter: usize, sum: u128) -> (r: Option<u32>)
    requires
        sum <= 8 * usize::MAX,
    ensures
        r is Some <==> module_count(counter as int, sum as int) is Some,
        r is Some ==> r->Some_0 == module_count(counter as int, sum as int)->Some_0 && 1
            <= r->Some_0 <= 8,
{
    let c: u128 = counter as u128;
    if 170 * c < 3 * sum || 170 * c > 87 * sum {
        None
    } else if 34 * c < 3 * sum {
        Some(1)
    } else if 34 * c < 5 * sum {
        Some(2)
    } else if 34 * c < 7 * sum {
        Some(3)
    } else if 34 * c < 9 * sum {
        Some(4)
    } else if 34 * c < 11 * sum {
        Some(5)
    } else if 34 * c < 13 * sum {
        Some(6)
    } else if 34 * c < 15 * sum {
        Some(7)
    } else {
        Some(8)
    }
}

/// A count times its checksum weight.
fn weighted(count: u32, row: usize, column: usize) -> (r: u32)
    requires
        count <= 9,
        row < 23,
        column < 8,
    ensures
        r == count * weight(row as int, column as int),
        r <= 1890,
{
    let w: u32 = weightAt(row, column);
    assert(count * w <= 1890) by (nonlinear_arith)
        requires
            count <= 9,
            w <= 210,
    ;
    count * w
}

/// Whether a character is not the left one of the first finder pattern of a
/// symbol.
pub fn isNotA1left(pattern: &FinderPattern, isOddPattern: bool, leftChar: bool) -> (r: bool)
    ensures
        r == not_a1_left(pattern.value as int, isOddPattern, leftChar),
{
    // A1: the pattern is A, it is an odd pattern, and the character is left of it
    !(pattern.getValue() == 0 && isOddPattern && leftChar)
}

/// Corrects the odd and the even counts so that they add up as a character
/// of `numModules` modules asks for. Fails, and leaves the counts as they
/// are, where no correction by one count of each kind does it.
pub fn adjustOddEvenCounts(
    oddCounts: &mut [u32; 4],
    evenCounts: &mut [u32; 4],
    oddRoundingErrors: &[i128; 4],
    evenRoundingErrors: &[i128; 4],
    numModules: u32,
) -> (r: Result<(), Exceptions>)
    requires
        forall|i: int| 0 <= i < 4 ==> 1 <= #[trigger] old(oddCounts)@[i] <= 8,
        forall|i: int| 0 <= i < 4 ==> 1 <= #[trigger] old(evenCounts)@[i] <= 8,
    ensures
        r is Ok <==> adjusted(
            widths_of(*old(oddCounts)),
            widths_of(*old(evenCounts)),
            errors_of(*oddRoundingErrors),
            errors_of(*evenRoundingErrors),
            numModules as int,
        ) is Some,
        r is Ok ==> (widths_of(*final(oddCounts)), widths_of(*final(evenCounts))) == adjusted(
            widths_of(*old(oddCounts)),
            widths_of(*old(evenCounts)),
            errors_of(*oddRoundingErrors),
            errors_of(*evenRoundingErrors),
            numModules as int,
        )->Some_0,
        r is Ok ==> forall|i: int| 0 <= i < 4 ==> #[trigger] final(oddCounts)@[i] <= 9,
        r is Ok ==> forall|i: int| 0 <= i < 4 ==> #[trigger] final(evenCounts)@[i] <= 9,
        r is Err ==> r->Err_0 == Exceptions::NotFoundException && *final(oddCounts) == *old(
            oddCounts,
        ) && *final(evenCounts) == *old(evenCounts),
{
    let ghost odd = widths_of(*oddCounts);
    let ghost even = widths_of(*evenCounts);
    let oddSum: u32 = oddCounts[0] + oddCounts[1] + oddCounts[2] + oddCounts[3];
    let evenSum: u32 = evenCounts[0] + evenCounts[1] + evenCounts[2] + evenCounts[3];
    assert(oddSum == total(odd));
    assert(evenSum == total(even));

    let mut incrementOdd: bool = false;
    let mut decrementOdd: bool = false;
    if oddSum > 13 {
        decrementOdd = true;
    } else if oddSum < 4 {
        incrementOdd = true;
    }
    let mut incrementEven: bool = false;
    let mut decrementEven: bool = false;
    if evenSum > 13 {
        decrementEven = true;
    } else if evenSum < 4 {
        incrementEven = true;
    }
    let mismatch: i64 = oddSum as i64 + evenSum as i64 - numModules as i64;
    let oddParityBad: bool = oddSum % 2 == 1;
    let evenParityBad: bool = evenSum % 2 == 0;
    if mismatch == 1 {
        if oddParityBad {
            if evenParityBad {
                return Err(Exceptions::NotFoundException);
            }
            decrementOdd = true;
        } else {
            if !evenParityBad {
                return Err(Exceptions::NotFoundException);
            }
            decrementEven = true;
        }
    } else if mismatch == -1 {
        if oddParityBad {
            if evenParityBad {
                return Err(Exceptions::NotFoundException);
            }
            incrementOdd = true;
        } else {
            if !evenParityBad {
                return Err(Exceptions::NotFoundException);
            }
            incrementEven = true;
        }
    } else if mismatch == 0 {
        if oddParityBad {
            if !evenParityBad {
                return Err(Exceptions::NotFoundException);
            }
            // Both bad
            if oddSum < evenSum {
                incrementOdd = true;
                decrementEven = true;
            } else {
                decrementOdd = true;
                incrementEven = true;
            }
        } else {
            if evenParityBad {
                return Err(Exceptions::NotFoundException);
            }
            // Nothing to do
        }
    } else {
        return Err(Exceptions::NotFoundException);
    }
    assert(adjustment(total(odd), total(even), numModules as int) == Some(
        (incrementOdd, decrementOdd, incrementEven, decrementEven),
    ));
    if (incrementOdd && decrementOdd) || (incrementEven && decrementEven) {
        return Err(Exceptions::NotFoundException);
    }
    proof {
        lemma_first_extremes(errors_of(*oddRoundingErrors), 4);
        lemma_first_extremes(errors_of(*evenRoundingErrors), 4);
    }
    if incrementOdd {
        increment(oddCounts, oddRoundingErrors);
    }
    if decrementOdd {
        decrement(oddCounts, oddRoundingErrors);
    }
    if incrementEven {
        increment(evenCounts, oddRoundingErrors);
    }
    if decrementEven {
        decrement(evenCounts, evenRoundingErrors);
    }
    proof {
        let target = adjusted(
            odd,
            even,
            errors_of(*oddRoundingErrors),
            errors_of(*evenRoundingErrors),
            numModules as int,
        )->Some_0;
        assert(widths_of(*oddCounts) =~= target.0);
        assert(widths_of(*evenCounts) =~= target.1);
    }
    Ok(())
}

/// Reads the eight runs of the character to the left or to the right of a
/// finder pattern, the run farthest from the pattern first.
pub fn characterRuns(row: &BitArray, pattern: &FinderPattern, leftChar: bool) -> (r: Result<
    [usize; 8],
    Exceptions,
>)
    requires
        row.wf(),
    ensures
        r is Ok <==> character_runs(row@, *pattern, leftChar) is Some,
        r is Ok ==> lengths8(r->Ok_0) == character_runs(row@, *pattern, leftChar)->Some_0,
        r is Err ==> r->Err_0 == Exceptions::NotFoundException,
{
    let mut counters: [usize; 8] = [0, 0, 0, 0, 0, 0, 0, 0];
    if leftChar {
        if pattern.start >= row.getSize() {
            return Err(Exceptions::NotFoundException);
        }
        match recordPatternInReverse(row, pattern.start, &mut counters) {
            Ok(()) => Ok(counters),
            Err(e) => Err(e),
        }
    } else {
        match recordPattern(row, pattern.end, &mut counters) {
            Ok(()) => {},
            Err(e) => {
                return Err(e);
            },
        }
        let ghost forward = lengths8(counters);
        // reverse it
        let mut i: usize = 0;
        while i < 4
            invariant
                i <= 4,
                forward.len() == 8,
                forall|k: int| 0 <= k < i ==> #[trigger] counters@[k] == forward[7 - k],
                forall|k: int| 8 - i <= k < 8 ==> #[trigger] counters@[k] == forward[7 - k],
                forall|k: int| i <= k < 8 - i ==> #[trigger] counters@[k] == forward[k],
            decreases 4 - i,
        {
            let temp: usize = counters[i];
            counters[i] = counters[7 - i];
            counters[7 - i] = temp;
            i += 1;
        }
        assert(lengths8(counters) =~= forward.reverse());
        Ok(counters)
    }
}

/// The module counts of eight runs and their rounding errors, the odd
/// elements apart from the even ones.
fn moduleCounts(counters: &[usize; 8], sum: u128) -> (r: Option<
    ([u32; 4], [u32; 4], [i128; 4], [i128; 4]),
>)
    requires
        sum == total8(lengths8(*counters)),
    ensures
        r is Some <==> module_counts(lengths8(*counters)) is Some,
        r is Some ==> {
            let c = lengths8(*counters);
            let counts = module_counts(c)->Some_0;
            let errors = rounding_errors(c, counts);
            &&& widths_of(r->Some_0.0) == odd_part(counts)
            &&& widths_of(r->Some_0.1) == even_part(counts)
            &&& errors_of(r->Some_0.2) == odd_part(errors)
            &&& errors_of(r->Some_0.3) == even_part(errors)
            &&& forall|k: int| 0 <= k < 4 ==> 1 <= #[trigger] r->Some_0.0@[k] <= 8
            &&& forall|k: int| 0 <= k < 4 ==> 1 <= #[trigger] r->Some_0.1@[k] <= 8
        },
{
    let ghost c = lengths8(*counters);
    let mut oddCounts: [u32; 4] = [1, 1, 1, 1];
    let mut evenCounts: [u32; 4] = [1, 1, 1, 1];
    let mut oddRoundingErrors: [i128; 4] = [0, 0, 0, 0];
    let mut evenRoundingErrors: [i128; 4] = [0, 0, 0, 0];
    let mut i: usize = 0;
    while i < 8
        invariant
            i <= 8,
            c == lengths8(*counters),
            sum == total8(c),
            sum <= 8 * usize::MAX,
            forall|k: int| 0 <= k < i ==> (#[trigger] module_count(c[k], total8(c))) is Some,
            forall|k: int| 0 <= k < 4 ==> 1 <= #[trigger] oddCounts@[k] <= 8,
            forall|k: int| 0 <= k < 4 ==> 1 <= #[trigger] evenCounts@[k] <= 8,
            forall|k: int|
                0 <= k < 4 && 2 * k < i ==> #[trigger] oddCounts@[k] == module_count(
                    c[2 * k],
                    total8(c),
                )->Some_0 && oddRoundingErrors@[k] == rounding_error(
                    c[2 * k],
                    total8(c),
                    oddCounts@[k] as int,
                ),
            forall|k: int|
                0 <= k < 4 && 2 * k + 1 < i ==> #[trigger] evenCounts@[k] == module_count(
                    c[2 * k + 1],
                    total8(c),
                )->Some_0 && evenRoundingErrors@[k] == rounding_error(
                    c[2 * k + 1],
                    total8(c),
                    evenCounts@[k] as int,
                ),
        decreases 8 - i,
    {
        assert(c[i as int] == counters@[i as int]);
        let count: u32 = match moduleCount(counters[i], sum) {
            Some(count) => count,
            None => {
                assert(module_counts(c) is None);
                return None;
            },
        };
        assert((count as int) * (sum as int) <= 8 * (sum as int)) by (nonlinear_arith)
            requires
                count <= 8,
                sum >= 0,
        ;
        let error: i128 = 17 * (counters[i] as i128) - (count as i128) * (sum as i128);
        let offset: usize = i / 2;
        if i % 2 == 0 {
            oddCounts[offset] = count;
            oddRoundingErrors[offset] = error;
        } else {
            evenCounts[offset] = count;
            evenRoundingErrors[offset] = error;
        }
        i += 1;
    }
    proof {
        let counts = module_counts(c)->Some_0;
        let errors = rounding_errors(c, counts);
        assert(module_counts(c) is Some);
        assert(oddCounts@[0] == counts[0] && oddCounts@[1] == counts[2] && oddCounts@[2]
            == counts[4] && oddCounts@[3] == counts[6]);
        assert(evenCounts@[0] == counts[1] && evenCounts@[1] == counts[3] && evenCounts@[2]
            == counts[5] && evenCounts@[3] == counts[7]);
        assert(widths_of(oddCounts) =~= odd_part(counts));
        assert(widths_of(evenCounts) =~= even_part(counts));
        assert(errors_of(oddRoundingErrors) =~= odd_part(errors));
        assert(errors_of(evenRoundingErrors) =~= even_part(errors));
    }
    Some((oddCounts, evenCounts, oddRoundingErrors, evenRoundingErrors))
}

/// What a character with the given counts adds to the checksum.
fn checksumPortion(oddCounts: &[u32; 4], evenCounts: &[u32; 4], weightRowNumber: usize) -> (r:
    u32)
    requires
        weightRowNumber < 23,
        forall|i: int| 0 <= i < 4 ==> #[trigger] oddCounts@[i] <= 9,
        forall|i: int| 0 <= i < 4 ==> #[trigger] evenCounts@[i] <= 9,
    ensures
        r == checksum_portion_of(
            widths_of(*oddCounts),
            widths_of(*evenCounts),
            weightRowNumber as int,
        ),
{
    weighted(oddCounts[0], weightRowNumber, 0) + weighted(evenCounts[0], weightRowNumber, 1)
        + weighted(oddCounts[1], weightRowNumber, 2) + weighted(evenCounts[1], weightRowNumber, 3)
        + weighted(oddCounts[2], weightRowNumber, 4) + weighted(evenCounts[2], weightRowNumber, 5)
        + weighted(oddCounts[3], weightRowNumber, 6) + weighted(evenCounts[3], weightRowNumber, 7)
}

/// The value of a character with the given counts.
fn characterValue(oddCounts: &[u32; 4], evenCounts: &[u32; 4]) -> (r: Option<i32>)
    requires
        forall|i: int| 0 <= i < 4 ==> #[trigger] oddCounts@[i] <= 9,
        forall|i: int| 0 <= i < 4 ==> #[trigger] evenCounts@[i] <= 9,
    ensures
        r is Some <==> character_value(widths_of(*oddCounts), widths_of(*evenCounts)) is Some,
        r is Some ==> r->Some_0 == character_value(
            widths_of(*oddCounts),
            widths_of(*evenCounts),
        )->Some_0,
{
    let ghost odd = widths_of(*oddCounts);
    let oddSum: u32 = oddCounts[0] + oddCounts[1] + oddCounts[2] + oddCounts[3];
    let evenSum: u32 = evenCounts[0] + evenCounts[1] + evenCounts[2] + evenCounts[3];
    assert(oddSum == total(odd));
    if oddSum % 2 != 0 || oddSum > 13 || oddSum < 4 {
        return None;
    }
    let group: usize = ((13 - oddSum) / 2) as usize;
    let oddWidest: u32 = SYMBOL_WIDEST[group];
    let evenWidest: u32 = 9 - oddWidest;
    let vOdd: i64 = getRSSvalue(oddCounts, oddWidest, true);
    let vEven: i64 = getRSSvalue(evenCounts, evenWidest, false);
    let tEven: i64 = EVEN_TOTAL_SUBSET[group] as i64;
    let gSum: i64 = GSUM[group] as i64;
    proof {
        assert(oddSum * step_bound(oddSum as int) <= 13 * 848) by (nonlinear_arith)
            requires
                0 <= oddSum <= 13,
                step_bound(oddSum as int) == 5 * oddSum * oddSum + 3,
        ;
        assert(evenSum * step_bound(evenSum as int) <= 36 * 6483) by (nonlinear_arith)
            requires
                0 <= evenSum <= 36,
                step_bound(evenSum as int) == 5 * evenSum * evenSum + 3,
        ;
        assert(-(11024 * 204) <= vOdd * tEven <= 11024 * 204) by (nonlinear_arith)
            requires
                -11024 <= vOdd <= 11024,
                0 <= tEven <= 204,
        ;
    }
    let value: i64 = vOdd * tEven + vEven + gSum;
    Some(value as i32)
}

/// The character that eight runs stand for beside a finder pattern that is
/// `finderWidth` pixels wide and stands for the canonical pattern
/// `finderValue`; the first run is the one farthest from the pattern. Fails
/// where the width of the runs does not fit that of the finder pattern or
/// where the runs are not the elements of a character.
pub fn characterOf(
    counters: &[usize; 8],
    finderWidth: usize,
    finderValue: u32,
    isOddPattern: bool,
    leftChar: bool,
) -> (r: Result<DataCharacter, Exceptions>)
    requires
        finderValue <= 5,
    ensures
        r is Ok <==> character_of(
            lengths8(*counters),
            finderWidth as int,
            finderValue as int,
            isOddPattern,
            leftChar,
        ) is Some,
        r is Ok ==> r->Ok_0 == character_of(
            lengths8(*counters),
            finderWidth as int,
            finderValue as int,
            isOddPattern,
            leftChar,
        )->Some_0,
        r is Err ==> r->Err_0 == Exceptions::NotFoundException,
{
    let ghost c = lengths8(*counters);
    let numModules: u32 = 17;  // left and right data characters are of the same length
    let sum: u128 = counters[0] as u128 + counters[1] as u128 + counters[2] as u128
        + counters[3] as u128 + counters[4] as u128 + counters[5] as u128 + counters[6] as u128
        + counters[7] as u128;
    assert(sum == total8(c));
    // The module width of the character and of the pattern should match
    let characterSide: u128 = 15 * sum;
    let finderSide: u128 = 17 * (finderWidth as u128);
    let difference: u128 = if characterSide >= finderSide {
        characterSide - finderSide
    } else {
        finderSide - characterSide
    };
    if 10 * difference > 51 * (finderWidth as u128) {
        return Err(Exceptions::NotFoundException);
    }
    let (mut oddCounts, mut evenCounts, oddRoundingErrors, evenRoundingErrors) = match moduleCounts(
        counters,
        sum,
    ) {
        Some(found) => found,
        None => {
            return Err(Exceptions::NotFoundException);
        },
    };
    match adjustOddEvenCounts(
        &mut oddCounts,
        &mut evenCounts,
        &oddRoundingErrors,
        &evenRoundingErrors,
        numModules,
    ) {
        Ok(()) => {},
        Err(e) => {
            return Err(e);
        },
    }
    let pattern = FinderPattern::new(finderValue, 0, 0, 0);
    let mut portion: u32 = 0;
    if isNotA1left(&pattern, isOddPattern, leftChar) {
        let weightRowNumber: usize = (4 * finderValue + (if isOddPattern {
            0
        } else {
            2
        }) + (if leftChar {
            0
        } else {
            1
        }) - 1) as usize;
        portion = checksumPortion(&oddCounts, &evenCounts, weightRowNumber);
    }
    match characterValue(&oddCounts, &evenCounts) {
        Some(value) => Ok(DataCharacter::new(value, portion)),
        None => Err(Exceptions::NotFoundException),
    }
}

/// Reads the character that stands to the left or to the right of a finder
/// pattern. Fails where the row does not hold the eight runs of a
/// character there, where their width does not fit that of the finder
/// pattern, or where they are not the elements of a character.
pub fn decodeDataCharacter(
    row: &BitArray,
    pattern: &FinderPattern,
    isOddPattern: bool,
    leftChar: bool,
) -> (r: Result<DataCharacter, Exceptions>)
    requires
        row.wf(),
        pattern.value <= 5,
        pattern.start <= pattern.end,
    ensures
        r is Ok <==> decoded_character(row@, *pattern, isOddPattern, leftChar) is Some,
        r is Ok ==> r->Ok_0 == decoded_character(row@, *pattern, isOddPattern, leftChar)->Some_0,
        r is Err ==> r->Err_0 == Exceptions::NotFoundException,
{
    match characterRuns(row, pattern, leftChar) {
        Ok(counters) => characterOf(
            &counters,
            pattern.end - pattern.start,
            pattern.value,
            isOddPattern,
            leftChar,
        ),
        Err(e) => Err(e),
    }
}

} // verus!
