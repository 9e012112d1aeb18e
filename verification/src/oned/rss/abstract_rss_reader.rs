//! What the readers of the RSS family share: the test that tells a finder
//! pattern from other runs, the choice of the canonical pattern that four
//! runs come closest to, and the correction of rounded element widths.

use crate::exceptions::Exceptions;
use vstd::prelude::*;

verus! {

/// The widths, in modules, of the first four elements of the canonical
/// finder pattern `p`, for the six patterns A to F (0 to 5). They add up to
/// 14.
pub open spec fn finder_elements(p: int) -> Seq<int> {
    if p == 0 {
        seq![1, 8, 4, 1]
    } else if p == 1 {
        seq![3, 6, 4, 1]
    } else if p == 2 {
        seq![3, 4, 6, 1]
    } else if p == 3 {
        seq![3, 2, 8, 1]
    } else if p == 4 {
        seq![2, 6, 5, 1]
    } else {
        seq![2, 2, 9, 1]
    }
}

/// The sum of four run lengths.
pub open spec fn total(c: Seq<int>) -> int {
    c[0] + c[1] + c[2] + c[3]
}

/// The distance between two numbers.
pub open spec fn distance(a: int, b: int) -> int {
    if a >= b {
        a - b
    } else {
        b - a
    }
}

/// How far run `i` of `c` is from element `i` of pattern `p` scaled to the
/// total of `c`, in fourteenths of a pixel: the runs' total stands for the
/// pattern's 14 modules.
pub open spec fn deviation(c: Seq<int>, p: int, i: int) -> int {
    distance(14 * c[i], finder_elements(p)[i] * total(c))
}

/// The runs `c` are within tolerance of pattern `p`: they are at least 14
/// pixels in all, and none is farther from its element than half a module.
pub open spec fn within_tolerance(c: Seq<int>, p: int) -> bool {
    &&& total(c) >= 14
    &&& 2 * deviation(c, p, 0) <= total(c)
    &&& 2 * deviation(c, p, 1) <= total(c)
    &&& 2 * deviation(c, p, 2) <= total(c)
    &&& 2 * deviation(c, p, 3) <= total(c)
}

/// The variance of the runs `c` against pattern `p`: the sum of the
/// deviations of the four runs.
pub open spec fn variance(c: Seq<int>, p: int) -> int {
    deviation(c, p, 0) + deviation(c, p, 1) + deviation(c, p, 2) + deviation(c, p, 3)
}

/// The best of the first `n` patterns for the runs `c`: the one of least
/// variance among those within tolerance, the first of them where several
/// have it.
pub open spec fn best_pattern(c: Seq<int>, n: nat) -> Option<int>
    decreases n,
{
    if n == 0 {
        None
    } else {
        let before = best_pattern(c, (n - 1) as nat);
        if within_tolerance(c, n - 1) && (before is None || variance(c, n - 1) < variance(
            c,
            before->Some_0,
        )) {
            Some(n - 1)
        } else {
            before
        }
    }
}

/// The canonical finder pattern that the runs `c` stand for, if any.
pub open spec fn finder_value(c: Seq<int>) -> Option<int> {
    best_pattern(c, 6)
}

/// What `best_pattern` finds is within tolerance and has the least variance
/// of all patterns within tolerance, and of those with that variance the
/// least number; it finds nothing only where no pattern is within tolerance.
pub proof fn lemma_best_pattern(c: Seq<int>, n: nat)
    ensures
        best_pattern(c, n) is None <==> forall|q: int| 0 <= q < n ==> !within_tolerance(c, q),
        best_pattern(c, n) is Some ==> {
            let p = best_pattern(c, n)->Some_0;
            &&& 0 <= p < n
            &&& within_tolerance(c, p)
            &&& forall|q: int|
                0 <= q < n && within_tolerance(c, q) ==> variance(c, p) < variance(c, q) || (
                variance(c, p) == variance(c, q) && p <= q)
        },
    decreases n,
{
    if n > 0 {
        lemma_best_pattern(c, (n - 1) as nat);
    }
}

/// The four runs pass for elements 2 to 5 of a finder pattern: the first two
/// take between 9.5/12 and 12.5/14 of the total, the band that the six
/// canonical patterns span with half a module of tolerance, and the longest
/// run is less than ten times the shortest.
pub open spec fn finder_ratio(c: Seq<int>) -> bool {
    let first_two = c[0] + c[1];
    let sum = total(c);
    &&& 24 * first_two >= 19 * sum
    &&& 28 * first_two <= 25 * sum
    &&& forall|i: int, j: int| 0 <= i < 4 && 0 <= j < 4 ==> c[i] < 10 * c[j]
}

/// The index of the first greatest of the first `n` numbers of `e`.
pub open spec fn first_greatest(e: Seq<int>, n: nat) -> int
    decreases n,
{
    if n <= 1 {
        0
    } else {
        let before = first_greatest(e, (n - 1) as nat);
        if e[n - 1] > e[before] {
            n - 1
        } else {
            before
        }
    }
}

/// The index of the first least of the first `n` numbers of `e`.
pub open spec fn first_least(e: Seq<int>, n: nat) -> int
    decreases n,
{
    if n <= 1 {
        0
    } else {
        let before = first_least(e, (n - 1) as nat);
        if e[n - 1] < e[before] {
            n - 1
        } else {
            before
        }
    }
}

/// `first_greatest` finds a number that none exceeds and that none before
/// it equals; `first_least` one that exceeds none and that none before it
/// equals.
pub proof fn lemma_first_extremes(e: Seq<int>, n: nat)
    requires
        1 <= n <= e.len(),
    ensures
        0 <= first_greatest(e, n) < n,
        forall|j: int| 0 <= j < n ==> #[trigger] e[j] <= e[first_greatest(e, n)],
        forall|j: int| 0 <= j < first_greatest(e, n) ==> #[trigger] e[j] < e[first_greatest(e, n)],
        0 <= first_least(e, n) < n,
        forall|j: int| 0 <= j < n ==> #[trigger] e[j] >= e[first_least(e, n)],
        forall|j: int| 0 <= j < first_least(e, n) ==> #[trigger] e[j] > e[first_least(e, n)],
    decreases n,
{
    if n > 1 {
        lemma_first_extremes(e, (n - 1) as nat);
    }
}

/// The numbers of an array of run lengths.
pub open spec fn lengths_of(counters: [usize; 4]) -> Seq<int> {
    counters@.map_values(|c: usize| c as int)
}

/// The numbers of an array of rounding errors.
pub open spec fn errors_of(errors: [i128; 4]) -> Seq<int> {
    errors@.map_values(|e: i128| e as int)
}

/// The widths of the first four elements of the canonical finder pattern
/// `p`.
fn finderElements(p: u32) -> (r: [u128; 4])
    requires
        p < 6,
    ensures
        forall|i: int| 0 <= i < 4 ==> #[trigger] r@[i] == finder_elements(p as int)[i],
{
    if p == 0 {
        [1, 8, 4, 1]
    } else if p == 1 {
        [3, 6, 4, 1]
    } else if p == 2 {
        [3, 4, 6, 1]
    } else if p == 3 {
        [3, 2, 8, 1]
    } else if p == 4 {
        [2, 6, 5, 1]
    } else {
        [2, 2, 9, 1]
    }
}

/// The variance of the runs against pattern `p`, where they are within
/// tolerance of it.
fn patternVariance(counters: &[usize; 4], p: u32) -> (r: Option<u128>)
    requires
        p < 6,
    ensures
        r is Some <==> within_tolerance(lengths_of(*counters), p as int),
        r is Some ==> r->Some_0 == variance(lengths_of(*counters), p as int),
{
    let sum: u128 = counters[0] as u128 + counters[1] as u128 + counters[2] as u128
        + counters[3] as u128;
    if sum < 14 {
        return None;
    }
    let elements: [u128; 4] = finderElements(p);
    let ghost c = lengths_of(*counters);
    let mut totalVariance: u128 = 0;
    let mut i: usize = 0;
    while i < 4
        invariant
            i <= 4,
            p < 6,
            c == lengths_of(*counters),
            sum == total(c),
            sum >= 14,
            sum <= 4 * usize::MAX,
            forall|t: int| 0 <= t < 4 ==> #[trigger] elements@[t] == finder_elements(p as int)[t],
            forall|t: int| 0 <= t < i ==> 2 * deviation(c, p as int, t) <= sum,
            i == 0 ==> totalVariance == 0,
            i == 1 ==> totalVariance == deviation(c, p as int, 0),
            i == 2 ==> totalVariance == deviation(c, p as int, 0) + deviation(c, p as int, 1),
            i == 3 ==> totalVariance == deviation(c, p as int, 0) + deviation(c, p as int, 1)
                + deviation(c, p as int, 2),
            i == 4 ==> totalVariance == variance(c, p as int),
            totalVariance <= i * sum,
        decreases 4 - i,
    {
        let counter: u128 = 14 * (counters[i] as u128);
        assert(elements@[i as int] <= 9);
        assert(elements@[i as int] * sum <= 9 * sum) by (nonlinear_arith)
            requires
                elements@[i as int] <= 9,
                sum >= 0,
        ;
        let scaledPattern: u128 = elements[i] * sum;
        let deviation: u128 = if counter >= scaledPattern {
            counter - scaledPattern
        } else {
            scaledPattern - counter
        };
        if 2 * deviation > sum {
            return None;
        }
        totalVariance = totalVariance + deviation;
        i += 1;
    }
    Some(totalVariance)
}

/// The canonical finder pattern that four runs stand for: the pattern of
/// least variance among those that the runs are within tolerance of, the
/// first of them where several have it. Fails where the runs are within
/// tolerance of none.
pub fn parseFinderValue(counters: &[usize; 4]) -> (r: Result<u32, Exceptions>)
    ensures
        r is Ok <==> finder_value(lengths_of(*counters)) is Some,
        r is Ok ==> r->Ok_0 == finder_value(lengths_of(*counters))->Some_0 && r->Ok_0 < 6,
        r is Err ==> r->Err_0 == Exceptions::NotFoundException,
{
    let ghost c = lengths_of(*counters);
    let mut best: Option<u32> = None;
    let mut least: u128 = 0;
    let mut value: u32 = 0;
    while value < 6
        invariant
            value <= 6,
            c == lengths_of(*counters),
            best is Some <==> best_pattern(c, value as nat) is Some,
            best is Some ==> best->Some_0 == best_pattern(c, value as nat)->Some_0 && best->Some_0
                < value && least == variance(c, best->Some_0 as int),
        decreases 6 - value,
    {
        match patternVariance(counters, value) {
            Some(v) => {
                if best.is_none() || v < least {
                    best = Some(value);
                    least = v;
                }
            },
            None => {},
        }
        value += 1;
    }
    match best {
        Some(p) => Ok(p),
        None => Err(Exceptions::NotFoundException),
    }
}

/// Whether four runs pass for elements 2 to 5 of a finder pattern.
pub fn isFinderPattern(counters: &[usize; 4]) -> (r: bool)
    ensures
        r == finder_ratio(lengths_of(*counters)),
{
    let ghost c = lengths_of(*counters);
    let firstTwoSum: u128 = counters[0] as u128 + counters[1] as u128;
    let sum: u128 = firstTwoSum + counters[2] as u128 + counters[3] as u128;
    if 24 * firstTwoSum >= 19 * sum && 28 * firstTwoSum <= 25 * sum {
        // passes the ratio test, but see whether the runs are unreasonable
        let mut minCounter: usize = counters[0];
        let mut maxCounter: usize = counters[0];
        let ghost mut least: int = 0;
        let ghost mut greatest: int = 0;
        assert(c[0] == counters@[0]);
        let mut i: usize = 1;
        while i < 4
            invariant
                1 <= i <= 4,
                c == lengths_of(*counters),
                forall|t: int| 0 <= t < i ==> minCounter <= #[trigger] c[t] <= maxCounter,
                0 <= least < i && c[least] == minCounter,
                0 <= greatest < i && c[greatest] == maxCounter,
            decreases 4 - i,
        {
            let counter: usize = counters[i];
            assert(c[i as int] == counter);
            if counter > maxCounter {
                maxCounter = counter;
                proof {
                    greatest = i as int;
                }
            }
            if counter < minCounter {
                minCounter = counter;
                proof {
                    least = i as int;
                }
            }
            i += 1;
        }
        proof {
            if maxCounter < 10 * minCounter {
                assert forall|a: int, b: int| 0 <= a < 4 && 0 <= b < 4 implies c[a] < 10 * c[b] by {
                    assert(c[a] <= maxCounter);
                    assert(minCounter <= c[b]);
                }
            } else {
                assert(!(c[greatest] < 10 * c[least]));
            }
        }
        (maxCounter as u128) < 10 * (minCounter as u128)
    } else {
        false
    }
}

/// Adds one to the count whose rounding error is the greatest, the first of
/// them where several have it: the count that was rounded down the most.
pub fn increment(array: &mut [u32; 4], errors: &[i128; 4])
    requires
        forall|i: int| 0 <= i < 4 ==> old(array)@[i] < u32::MAX,
    ensures
        final(array)@ == old(array)@.update(
            first_greatest(errors_of(*errors), 4),
            (old(array)@[first_greatest(errors_of(*errors), 4)] + 1) as u32,
        ),
{
    let ghost e = errors_of(*errors);
    let mut index: usize = 0;
    let mut biggestError: i128 = errors[0];
    let mut i: usize = 1;
    while i < 4
        invariant
            1 <= i <= 4,
            e == errors_of(*errors),
            index == first_greatest(e, i as nat),
            index < i,
            biggestError == e[index as int],
        decreases 4 - i,
    {
        assert(e[i as int] == errors@[i as int]);
        if errors[i] > biggestError {
            biggestError = errors[i];
            index = i;
        }
        i += 1;
    }
    let count: u32 = array[index];
    array[index] = count + 1;
}

/// Takes one from the count whose rounding error is the least, the first of
/// them where several have it: the count that was rounded up the most.
pub fn decrement(array: &mut [u32; 4], errors: &[i128; 4])
    requires
        forall|i: int| 0 <= i < 4 ==> old(array)@[i] >= 1,
    ensures
        final(array)@ == old(array)@.update(
            first_least(errors_of(*errors), 4),
            (old(array)@[first_least(errors_of(*errors), 4)] - 1) as u32,
        ),
{
    let ghost e = errors_of(*errors);
    let mut index: usize = 0;
    let mut biggestError: i128 = errors[0];
    let mut i: usize = 1;
    while i < 4
        invariant
            1 <= i <= 4,
            e == errors_of(*errors),
            index == first_least(e, i as nat),
            index < i,
            biggestError == e[index as int],
        decreases 4 - i,
    {
        assert(e[i as int] == errors@[i as int]);
        if errors[i] < biggestError {
            biggestError = errors[i];
            index = i;
        }
        i += 1;
    }
    let count: u32 = array[index];
    array[index] = count - 1;
}

} // verus!
