use rxing::common::bit_array::BitArray;
use rxing::exceptions::Exceptions;
use rxing::oned::one_d_reader::{recordPattern, recordPatternInReverse, runEnd, runStart};
use rxing::oned::rss::abstract_rss_reader::{
    decrement, increment, isFinderPattern, parseFinderValue,
};
use rxing::oned::rss::data_character::DataCharacter;
use rxing::oned::rss::expanded::character_decoder::{
    adjustOddEvenCounts, characterOf, isNotA1left,
};
use rxing::oned::rss::expanded::tables::{EVEN_TOTAL_SUBSET, GSUM, SYMBOL_WIDEST};
use rxing::oned::rss::finder_pattern::FinderPattern;
use rxing::oned::rss::rss_utils::{combins, getRSSvalue};

fn row_of(runs: &[usize], first: bool) -> BitArray {
    let mut row = BitArray::new();
    let mut colour = first;
    for run in runs {
        for _ in 0..*run {
            row.appendBit(colour);
        }
        colour = !colour;
    }
    row
}

#[test]
fn combins_counts_choices() {
    assert_eq!(combins(5, 2), 10);
    assert_eq!(combins(10, 2), 45);
    assert_eq!(combins(7, 1), 7);
    assert_eq!(combins(4, 0), 1);
    assert_eq!(combins(3, 2), 3);
    assert_eq!(combins(2, 2), 1);
    assert_eq!(combins(1000, 2), 499500);
}

#[test]
fn combins_is_one_where_nothing_can_be_chosen() {
    assert_eq!(combins(0, 1), 1);
    assert_eq!(combins(1, 2), 1);
    assert_eq!(combins(-1, 0), 1);
    assert_eq!(combins(-2, 0), 1);
}

#[test]
fn rss_value_of_element_widths() {
    assert_eq!(getRSSvalue(&[1, 1, 1, 1], 8, false), 0);
    assert_eq!(getRSSvalue(&[5, 1, 1, 1], 7, true), 33);
    assert_eq!(getRSSvalue(&[2, 2, 2, 2], 4, true), 17);
    assert_eq!(getRSSvalue(&[1, 2, 3, 7], 8, false), 7);
    assert_eq!(getRSSvalue(&[3, 3, 4, 3], 8, false), 106);
    assert_eq!(getRSSvalue(&[0, 1, 1, 2], 7, true), 0);
    assert_eq!(getRSSvalue(&[9, 1, 1, 1], 7, true), 117);
    assert_eq!(getRSSvalue(&[0, 0, 0, 0], 7, true), 0);
}

#[test]
fn finder_value_of_the_canonical_patterns() {
    assert_eq!(parseFinderValue(&[1, 8, 4, 1]), Ok(0));
    assert_eq!(parseFinderValue(&[3, 6, 4, 1]), Ok(1));
    assert_eq!(parseFinderValue(&[3, 4, 6, 1]), Ok(2));
    assert_eq!(parseFinderValue(&[3, 2, 8, 1]), Ok(3));
    assert_eq!(parseFinderValue(&[2, 6, 5, 1]), Ok(4));
    assert_eq!(parseFinderValue(&[2, 2, 9, 1]), Ok(5));
    assert_eq!(parseFinderValue(&[6, 12, 8, 2]), Ok(1));
    assert_eq!(parseFinderValue(&[9, 18, 12, 3]), Ok(1));
}

#[test]
fn finder_value_takes_the_closest_pattern() {
    assert_eq!(parseFinderValue(&[10, 20, 13, 4]), Ok(1));
    assert_eq!(parseFinderValue(&[4, 12, 10, 2]), Ok(4));
}

#[test]
fn finder_value_fails_outside_the_tolerance() {
    assert_eq!(parseFinderValue(&[2, 2, 2, 2]), Err(Exceptions::NotFoundException));
    assert_eq!(parseFinderValue(&[1, 1, 1, 1]), Err(Exceptions::NotFoundException));
    assert_eq!(parseFinderValue(&[8, 4, 1, 1]), Err(Exceptions::NotFoundException));
    assert_eq!(parseFinderValue(&[0, 0, 0, 0]), Err(Exceptions::NotFoundException));
}

#[test]
fn finder_ratio_of_the_inner_elements() {
    assert!(isFinderPattern(&[8, 4, 1, 1]));
    assert!(isFinderPattern(&[32, 16, 4, 4]));
    assert!(isFinderPattern(&[7, 5, 1, 1]));
    assert!(!isFinderPattern(&[1, 8, 4, 1]));
    assert!(!isFinderPattern(&[2, 2, 2, 2]));
    assert!(!isFinderPattern(&[0, 0, 0, 0]));
    // the share of the first two runs is fine, but one run is ten times another
    assert!(!isFinderPattern(&[100, 10, 10, 10]));
    assert!(isFinderPattern(&[99, 10, 10, 10]));
}

#[test]
fn increment_takes_the_first_greatest_error() {
    let mut counts = [1u32, 2, 3, 4];
    increment(&mut counts, &[5, 9, 9, -1]);
    assert_eq!(counts, [1, 3, 3, 4]);
    increment(&mut counts, &[0, 0, 0, 0]);
    assert_eq!(counts, [2, 3, 3, 4]);
}

#[test]
fn decrement_takes_the_first_least_error() {
    let mut counts = [1u32, 2, 3, 4];
    decrement(&mut counts, &[5, -9, 9, -9]);
    assert_eq!(counts, [1, 1, 3, 4]);
    decrement(&mut counts, &[0, 0, 0, 0]);
    assert_eq!(counts, [0, 1, 3, 4]);
}

#[test]
fn adjust_leaves_fitting_counts() {
    let mut odd = [1u32, 2, 2, 3];
    let mut even = [2u32, 2, 2, 3];
    assert_eq!(adjustOddEvenCounts(&mut odd, &mut even, &[1, 2, 3, 4], &[4, 3, 2, 1], 17), Ok(()));
    assert_eq!(odd, [1, 2, 2, 3]);
    assert_eq!(even, [2, 2, 2, 3]);
}

#[test]
fn adjust_takes_one_from_the_odd_counts() {
    // 5 + 13 is one module too many, and the odd sum has the wrong parity
    let mut odd = [1u32, 1, 1, 2];
    let mut even = [3u32, 3, 3, 4];
    assert_eq!(adjustOddEvenCounts(&mut odd, &mut even, &[0, -5, 3, -7], &[0, 0, 0, 0], 17), Ok(()));
    assert_eq!(odd, [1, 1, 1, 1]);
    assert_eq!(even, [3, 3, 3, 4]);
}

#[test]
fn adjust_adds_to_the_even_counts_by_the_odd_errors() {
    // 8 + 8 is one module too few, and the even sum has the wrong parity
    let mut odd = [2u32, 2, 2, 2];
    let mut even = [2u32, 2, 2, 2];
    assert_eq!(adjustOddEvenCounts(&mut odd, &mut even, &[0, 9, 0, 0], &[7, 0, 0, 0], 17), Ok(()));
    assert_eq!(odd, [2, 2, 2, 2]);
    assert_eq!(even, [2, 3, 2, 2]);
}

#[test]
fn adjust_takes_from_the_even_counts_by_the_even_errors() {
    // 8 + 10 is one module too many, and the even sum has the wrong parity
    let mut odd = [2u32, 2, 2, 2];
    let mut even = [2u32, 2, 3, 3];
    assert_eq!(adjustOddEvenCounts(&mut odd, &mut even, &[0, -9, 0, 0], &[0, 0, 0, -7], 17), Ok(()));
    assert_eq!(odd, [2, 2, 2, 2]);
    assert_eq!(even, [2, 2, 3, 2]);
}

#[test]
fn adjust_moves_one_module_between_the_sets() {
    // 7 + 10 is right, but both parities are wrong: the smaller set grows
    let mut odd = [1u32, 2, 2, 2];
    let mut even = [2u32, 2, 3, 3];
    assert_eq!(adjustOddEvenCounts(&mut odd, &mut even, &[1, 2, 3, 2], &[1, 0, 0, -4], 17), Ok(()));
    assert_eq!(odd, [1, 2, 3, 2]);
    assert_eq!(even, [2, 2, 3, 2]);
    // 9 + 8: the greater set shrinks
    let mut odd = [3u32, 2, 2, 2];
    let mut even = [2u32, 2, 2, 2];
    assert_eq!(adjustOddEvenCounts(&mut odd, &mut even, &[1, -2, 3, 2], &[1, 0, 0, -4], 17), Ok(()));
    assert_eq!(odd, [3, 1, 2, 2]);
    assert_eq!(even, [2, 2, 3, 2]);
}

#[test]
fn adjust_fails_where_one_count_does_not_do() {
    // two modules too many
    let mut odd = [2u32, 2, 2, 4];
    let mut even = [2u32, 2, 2, 3];
    assert_eq!(
        adjustOddEvenCounts(&mut odd, &mut even, &[0, 0, 0, 0], &[0, 0, 0, 0], 17),
        Err(Exceptions::NotFoundException)
    );
    // one too many for 18 modules, but both parities are wrong
    let mut odd = [2u32, 2, 2, 3];
    let mut even = [2u32, 2, 3, 3];
    assert_eq!(
        adjustOddEvenCounts(&mut odd, &mut even, &[0, 0, 0, 0], &[0, 0, 0, 0], 18),
        Err(Exceptions::NotFoundException)
    );
    assert_eq!(odd, [2, 2, 2, 3]);
    assert_eq!(even, [2, 2, 3, 3]);
    // one too few for 18 modules, and both parities are right
    let mut odd = [2u32, 2, 2, 2];
    let mut even = [2u32, 2, 2, 3];
    assert_eq!(
        adjustOddEvenCounts(&mut odd, &mut even, &[0, 0, 0, 0], &[0, 0, 0, 0], 18),
        Err(Exceptions::NotFoundException)
    );
    // right in all for 18 modules, odd parity wrong, even parity right
    let mut odd = [2u32, 2, 2, 3];
    let mut even = [2u32, 2, 2, 3];
    assert_eq!(
        adjustOddEvenCounts(&mut odd, &mut even, &[0, 0, 0, 0], &[0, 0, 0, 0], 18),
        Err(Exceptions::NotFoundException)
    );
}

#[test]
fn adjust_fails_where_a_set_would_grow_and_shrink() {
    // the odd sum is above 13 and has to shrink, but the parities ask it to grow
    let mut odd = [4u32, 4, 4, 3];
    let mut even = [1u32, 1, 1, 1];
    assert_eq!(
        adjustOddEvenCounts(&mut odd, &mut even, &[0, 0, 0, 0], &[0, 0, 0, 0], 20),
        Err(Exceptions::NotFoundException)
    );
    assert_eq!(odd, [4, 4, 4, 3]);
    assert_eq!(even, [1, 1, 1, 1]);
}

#[test]
fn character_of_eight_runs() {
    assert_eq!(
        characterOf(&[100, 100, 200, 200, 300, 300, 200, 300], 1500, 1, true, false),
        Ok(DataCharacter::new(1654, 2160))
    );
    assert_eq!(
        characterOf(&[300, 200, 200, 200, 200, 200, 200, 200], 1500, 1, true, false),
        Ok(DataCharacter::new(2310, 2208))
    );
}

#[test]
fn check_character_adds_nothing_to_the_checksum() {
    let runs = [100, 100, 200, 200, 300, 300, 200, 300];
    assert_eq!(characterOf(&runs, 1500, 0, true, true), Ok(DataCharacter::new(1654, 0)));
    let right = characterOf(&runs, 1500, 0, true, false).expect("the runs are a character");
    assert_eq!(right.getValue(), 1654);
    assert_eq!(right.getChecksumPortion(), 1 + 3 + 2 * 9 + 2 * 27 + 3 * 81 + 3 * 32 + 2 * 96 + 3 * 77);
    let pattern_a = FinderPattern::new(0, 0, 0, 0);
    let pattern_b = FinderPattern::new(1, 0, 0, 0);
    assert!(!isNotA1left(&pattern_a, true, true));
    assert!(isNotA1left(&pattern_a, true, false));
    assert!(isNotA1left(&pattern_a, false, true));
    assert!(isNotA1left(&pattern_b, true, true));
}

#[test]
fn a_run_of_three_tenths_of_a_module_is_one_module() {
    // 30 of 1700 pixels are 0.30 modules
    assert_eq!(
        characterOf(&[30, 200, 200, 200, 200, 210, 330, 330], 1500, 1, true, false),
        Ok(DataCharacter::new(1620, 2136))
    );
    // 29 of 1700 pixels are 0.29 modules
    assert_eq!(
        characterOf(&[29, 200, 200, 200, 200, 211, 330, 330], 1500, 1, true, false),
        Err(Exceptions::NotFoundException)
    );
}

#[test]
fn a_run_of_eight_and_seven_tenths_modules_is_eight_modules() {
    // 870 of 1700 pixels are 8.70 modules
    assert_eq!(
        characterOf(&[870, 100, 100, 100, 100, 100, 165, 165], 1500, 1, true, false),
        Ok(DataCharacter::new(456, 1621))
    );
    // 871 of 1700 pixels are 8.71 modules
    assert_eq!(
        characterOf(&[871, 100, 100, 100, 100, 100, 165, 164], 1500, 1, true, false),
        Err(Exceptions::NotFoundException)
    );
}

#[test]
fn the_character_has_to_fit_the_finder_pattern() {
    let runs = [100, 100, 200, 200, 300, 300, 200, 300];
    // a module of the character is 100 pixels; one of the pattern may be
    // between 100 / 1.3 and 100 / 0.7 pixels
    assert_eq!(characterOf(&runs, 1153, 1, true, false), Err(Exceptions::NotFoundException));
    assert_eq!(characterOf(&runs, 1154, 1, true, false), Ok(DataCharacter::new(1654, 2160)));
    assert_eq!(characterOf(&runs, 2142, 1, true, false), Ok(DataCharacter::new(1654, 2160)));
    assert_eq!(characterOf(&runs, 2143, 1, true, false), Err(Exceptions::NotFoundException));
    assert_eq!(characterOf(&runs, 0, 1, true, false), Err(Exceptions::NotFoundException));
}

#[test]
fn runs_of_a_row() {
    let row = row_of(&[3, 2, 4, 1], false);
    assert_eq!(runEnd(&row, 0), 3);
    assert_eq!(runEnd(&row, 2), 3);
    assert_eq!(runEnd(&row, 3), 5);
    assert_eq!(runEnd(&row, 9), 10);
    assert_eq!(runStart(&row, 0), 0);
    assert_eq!(runStart(&row, 2), 0);
    assert_eq!(runStart(&row, 4), 3);
    assert_eq!(runStart(&row, 9), 9);
}

#[test]
fn record_pattern_reads_eight_runs() {
    let row = row_of(&[2, 1, 2, 3, 4, 5, 6, 7, 8, 9], false);
    let mut counters = [0usize; 8];
    assert_eq!(recordPattern(&row, 2, &mut counters), Ok(()));
    assert_eq!(counters, [1, 2, 3, 4, 5, 6, 7, 8]);
    // from inside a run, the rest of the run is the first run
    assert_eq!(recordPattern(&row, 4, &mut counters), Ok(()));
    assert_eq!(counters, [1, 3, 4, 5, 6, 7, 8, 9]);
    // the last run may end with the row
    assert_eq!(recordPattern(&row, 3, &mut counters), Ok(()));
    assert_eq!(counters, [2, 3, 4, 5, 6, 7, 8, 9]);
    // but it has to start in the row
    assert_eq!(recordPattern(&row, 8, &mut counters), Err(Exceptions::NotFoundException));
    assert_eq!(recordPattern(&row, 47, &mut counters), Err(Exceptions::NotFoundException));
    assert_eq!(recordPattern(&row, 500, &mut counters), Err(Exceptions::NotFoundException));
}

#[test]
fn record_pattern_in_reverse_reads_the_runs_before() {
    let row = row_of(&[2, 1, 2, 3, 4, 5, 6, 7, 8, 9], false);
    let mut counters = [0usize; 8];
    // the run at 38 is the tenth run; eight runs and one more lie before it
    assert_eq!(recordPatternInReverse(&row, 38, &mut counters), Ok(()));
    assert_eq!(counters, [1, 2, 3, 4, 5, 6, 7, 8]);
    assert_eq!(recordPatternInReverse(&row, 46, &mut counters), Ok(()));
    assert_eq!(counters, [1, 2, 3, 4, 5, 6, 7, 8]);
    // before the ninth run lie eight runs, but not one more
    assert_eq!(recordPatternInReverse(&row, 37, &mut counters), Err(Exceptions::NotFoundException));
    assert_eq!(recordPatternInReverse(&row, 0, &mut counters), Err(Exceptions::NotFoundException));
}

fn element_widths(total: u32, widest: u32) -> Vec<[u32; 4]> {
    let mut found = Vec::new();
    for a in 1..=widest {
        for b in 1..=widest {
            for c in 1..=widest {
                if a + b + c < total && total - a - b - c <= widest {
                    found.push([a, b, c, total - a - b - c]);
                }
            }
        }
    }
    found
}

#[test]
fn rss_values_number_the_even_element_widths() {
    for group in 0..5usize {
        let even_sum = 5 + 2 * group as u32;
        let even_widest = 9 - SYMBOL_WIDEST[group];
        let mut values: Vec<i64> = element_widths(even_sum, even_widest)
            .iter()
            .map(|w| getRSSvalue(w, even_widest, false))
            .collect();
        values.sort();
        let expected: Vec<i64> = (0..EVEN_TOTAL_SUBSET[group] as i64).collect();
        assert_eq!(values, expected);
    }
}

#[test]
fn rss_values_number_the_odd_element_widths_with_a_narrow_element() {
    for group in 0..5usize {
        let odd_sum = 12 - 2 * group as u32;
        let odd_widest = SYMBOL_WIDEST[group];
        let mut values: Vec<i64> = element_widths(odd_sum, odd_widest)
            .iter()
            .filter(|w| w.contains(&1))
            .map(|w| getRSSvalue(w, odd_widest, true))
            .collect();
        values.sort();
        let expected: Vec<i64> = (0..values.len() as i64).collect();
        assert_eq!(values, expected);
    }
}

#[test]
fn every_value_has_one_character() {
    let group_ends = [GSUM[1], GSUM[2], GSUM[3], GSUM[4], 4192];
    let mut values: Vec<i32> = Vec::new();
    for group in 0..5usize {
        let odd_sum = 12 - 2 * group as u32;
        let odd_widest = SYMBOL_WIDEST[group];
        let even_widest = 9 - odd_widest;
        let odd_patterns = ((group_ends[group] - GSUM[group]) / EVEN_TOTAL_SUBSET[group]) as i64;
        for odd in element_widths(odd_sum, odd_widest) {
            if !odd.contains(&1) || getRSSvalue(&odd, odd_widest, true) >= odd_patterns {
                continue;
            }
            for even in element_widths(17 - odd_sum, even_widest) {
                let mut runs = [0usize; 8];
                for i in 0..4 {
                    runs[2 * i] = 10 * odd[i] as usize;
                    runs[2 * i + 1] = 10 * even[i] as usize;
                }
                let character =
                    characterOf(&runs, 150, 1, true, false).expect("the runs are a character");
                assert!(character.getValue() >= GSUM[group] as i32);
                assert!(character.getValue() < group_ends[group] as i32);
                values.push(character.getValue());
            }
        }
    }
    values.sort();
    let expected: Vec<i32> = (0..4192).collect();
    assert_eq!(values, expected);
}
