//! Runs of equal bits in a row of pixels, and the reading of a pattern of
//! runs from a row.

use crate::common::bit_array::{lemma_next_equal, next_equal, BitArray};
use crate::exceptions::Exceptions;
use vstd::prelude::*;

verus! {

/// The end of the run of equal bits that starts at `i`: the index of the
/// first bit behind `i` that differs from bit `i`, or the length of `bits`.
pub open spec fn run_end(bits: Seq<bool>, i: int) -> int {
    next_equal(bits, i, !bits[i])
}

/// The start of the run of equal bits that holds bit `i`.
pub open spec fn run_start(bits: Seq<bool>, i: int) -> int
    decreases i,
{
    if i > 0 && bits[i - 1] == bits[i] {
        run_start(bits, i - 1)
    } else {
        i
    }
}

/// Where the run starts that comes `count` runs after the run that starts at
/// `start`; the length of `bits` where the runs end before.
pub open spec fn run_after(bits: Seq<bool>, start: int, count: nat) -> int
    decreases count,
{
    if count == 0 || start >= bits.len() {
        start
    } else {
        run_after(bits, run_end(bits, start), (count - 1) as nat)
    }
}

/// The lengths of the `count` runs from `start` on, the run that starts at
/// `start` first.
pub open spec fn run_lengths(bits: Seq<bool>, start: int, count: nat) -> Seq<int> {
    Seq::new(count, |k: int| run_after(bits, start, (k + 1) as nat) - run_after(bits, start, k as nat))
}

/// What a pattern of `count` runs reads as from `start` on: the lengths of
/// the runs, provided that `start` lies in the row and that the last of the
/// runs starts inside the row. It may end with the row.
pub open spec fn recorded(bits: Seq<bool>, start: int, count: nat) -> Option<Seq<int>> {
    if 0 <= start < bits.len() && count >= 1 && run_after(bits, start, (count - 1) as nat)
        < bits.len() {
        Some(run_lengths(bits, start, count))
    } else {
        None
    }
}

/// Where the run starts that lies `count` runs before the run that holds bit
/// `i`; nothing where the row begins before.
pub open spec fn run_before(bits: Seq<bool>, i: int, count: nat) -> Option<int>
    decreases count,
{
    if count == 0 {
        Some(run_start(bits, i))
    } else if run_start(bits, i) <= 0 {
        None
    } else {
        run_before(bits, run_start(bits, i) - 1, (count - 1) as nat)
    }
}

/// What a pattern of `count` runs reads as that ends just before the run
/// that holds bit `start`: the lengths of the `count` runs before that run,
/// the one farthest from `start` first, provided that one more run lies
/// before them.
pub open spec fn recorded_in_reverse(bits: Seq<bool>, start: int, count: nat) -> Option<Seq<int>> {
    match run_before(bits, start, count) {
        Some(first) => if first > 0 {
            recorded(bits, first, count)
        } else {
            None
        },
        None => None,
    }
}

/// A run that starts inside the row has a bit, ends inside the row or with
/// it, and the run behind it starts with the other value.
pub proof fn lemma_run_end(bits: Seq<bool>, i: int)
    requires
        0 <= i < bits.len(),
    ensures
        i < run_end(bits, i) <= bits.len(),
        forall|j: int| i <= j < run_end(bits, i) ==> bits[j] == bits[i],
        run_end(bits, i) < bits.len() ==> bits[run_end(bits, i)] != bits[i],
{
    lemma_next_equal(bits, i, !bits[i]);
}

/// One more run starts where the run before it ends.
pub proof fn lemma_run_after_step(bits: Seq<bool>, start: int, count: nat)
    requires
        0 <= start,
    ensures
        0 <= run_after(bits, start, count),
        start <= bits.len() ==> start <= run_after(bits, start, count) <= bits.len(),
        run_after(bits, start, count + 1) == (if run_after(bits, start, count) < bits.len() {
            run_end(bits, run_after(bits, start, count))
        } else {
            run_after(bits, start, count)
        }),
    decreases count,
{
    reveal_with_fuel(run_after, 2);
    if start < bits.len() {
        lemma_run_end(bits, start);
        let e = run_end(bits, start);
        if count > 0 {
            lemma_run_after_step(bits, e, (count - 1) as nat);
            assert(run_after(bits, start, count) == run_after(bits, e, (count - 1) as nat));
            assert(run_after(bits, start, count + 1) == run_after(bits, e, count));
        } else {
            assert(run_after(bits, start, 1) == run_after(bits, e, 0));
        }
    }
}

/// The first four runs from a place inside the row: each starts where the
/// one before it ends, and the first has a bit.
pub proof fn lemma_four_runs(bits: Seq<bool>, s: int)
    requires
        0 <= s < bits.len(),
    ensures
        run_after(bits, s, 0) == s,
        run_after(bits, s, 1) == run_end(bits, s),
        s < run_after(bits, s, 1) <= run_after(bits, s, 2) <= run_after(bits, s, 3) <= run_after(
            bits,
            s,
            4,
        ) <= bits.len(),
        run_after(bits, s, 1) < bits.len() ==> run_after(bits, s, 2) == run_end(
            bits,
            run_after(bits, s, 1),
        ) && run_after(bits, s, 1) < run_after(bits, s, 2),
        run_after(bits, s, 2) < bits.len() ==> run_after(bits, s, 3) == run_end(
            bits,
            run_after(bits, s, 2),
        ) && run_after(bits, s, 2) < run_after(bits, s, 3),
        run_after(bits, s, 3) < bits.len() ==> run_after(bits, s, 4) == run_end(
            bits,
            run_after(bits, s, 3),
        ) && run_after(bits, s, 3) < run_after(bits, s, 4),
{
    assert(run_after(bits, s, 0) == s);
    lemma_run_end(bits, s);
    lemma_run_after_step(bits, s, 0);
    lemma_run_after_step(bits, s, 1);
    lemma_run_after_step(bits, s, 2);
    lemma_run_after_step(bits, s, 3);
    if run_after(bits, s, 1) < bits.len() {
        lemma_run_end(bits, run_after(bits, s, 1));
    }
    if run_after(bits, s, 2) < bits.len() {
        lemma_run_end(bits, run_after(bits, s, 2));
    }
    if run_after(bits, s, 3) < bits.len() {
        lemma_run_end(bits, run_after(bits, s, 3));
    }
}

/// The end of the run that starts at `pos`.
pub fn runEnd(row: &BitArray, pos: usize) -> (r: usize)
    requires
        row.wf(),
        pos < row@.len(),
    ensures
        r == run_end(row@, pos as int),
        pos < r <= row@.len(),
{
    proof {
        lemma_run_end(row@, pos as int);
    }
    if row.get(pos) {
        row.getNextUnset(pos)
    } else {
        row.getNextSet(pos)
    }
}

/// The start of the run that holds bit `pos`.
pub fn runStart(row: &BitArray, pos: usize) -> (r: usize)
    requires
        row.wf(),
        pos < row@.len(),
    ensures
        r == run_start(row@, pos as int),
        r <= pos,
{
    let value: bool = row.get(pos);
    let mut i: usize = pos;
    while i > 0 && row.get(i - 1) == value
        invariant
            row.wf(),
            i <= pos < row@.len(),
            row@[i as int] == value,
            run_start(row@, pos as int) == run_start(row@, i as int),
        decreases i,
    {
        i -= 1;
    }
    i
}

/// Reads the lengths of eight runs into `counters`, the run that starts at
/// `start` first. Fails where `start` lies behind the row or where the row
/// ends before the last of the runs starts; `counters` then holds the runs
/// that were read.
pub fn recordPattern(row: &BitArray, start: usize, counters: &mut [usize; 8]) -> (r: Result<
    (),
    Exceptions,
>)
    requires
        row.wf(),
    ensures
        r is Ok <==> recorded(row@, start as int, 8) is Some,
        r is Err ==> r->Err_0 == Exceptions::NotFoundException,
        r is Ok ==> final(counters)@.map_values(|c: usize| c as int) == recorded(
            row@,
            start as int,
            8,
        )->Some_0,
        r is Ok ==> forall|k: int| 0 <= k < 8 ==> #[trigger] final(counters)@[k] >= 1,
{
    let end: usize = row.getSize();
    let mut pos: usize = start;
    let mut k: usize = 0;
    while k < 8
        invariant
            row.wf(),
            end == row@.len(),
            k <= 8,
            start <= pos <= end || (k == 0 && pos == start),
            pos == run_after(row@, start as int, k as nat),
            k > 0 ==> start < end,
            forall|t: int|
                0 <= t < k ==> #[trigger] counters@[t] == run_after(row@, start as int, (t + 1) as nat)
                    - run_after(row@, start as int, t as nat) && counters@[t] >= 1 && run_after(
                    row@,
                    start as int,
                    t as nat,
                ) < end,
        decreases 8 - k,
    {
        if pos >= end {
            proof {
                if k > 0 {
                    lemma_run_after_monotone(row@, start as int, k as nat, 7);
                }
            }
            return Err(Exceptions::NotFoundException);
        }
        proof {
            lemma_run_after_step(row@, start as int, k as nat);
        }
        let next: usize = runEnd(row, pos);
        counters[k] = next - pos;
        pos = next;
        k += 1;
    }
    proof {
        assert(counters@[7] >= 1);
        let lengths = counters@.map_values(|c: usize| c as int);
        assert forall|t: int| 0 <= t < 8 implies #[trigger] lengths[t] == run_lengths(
            row@,
            start as int,
            8,
        )[t] by {
            assert(counters@[t] >= 1);
        }
        assert(lengths =~= run_lengths(row@, start as int, 8));
    }
    Ok(())
}

/// A later run does not start before an earlier one.
pub proof fn lemma_run_after_monotone(bits: Seq<bool>, start: int, a: nat, b: nat)
    requires
        0 <= start,
        a <= b,
    ensures
        run_after(bits, start, a) <= run_after(bits, start, b),
        run_after(bits, start, a) >= bits.len() ==> run_after(bits, start, b) == run_after(
            bits,
            start,
            a,
        ),
    decreases b - a,
{
    if a < b {
        lemma_run_after_monotone(bits, start, a, (b - 1) as nat);
        lemma_run_after_step(bits, start, (b - 1) as nat);
        if run_after(bits, start, (b - 1) as nat) < bits.len() {
            lemma_run_end(bits, run_after(bits, start, (b - 1) as nat));
        }
    }
}

/// Reads the lengths of the eight runs that end just before the run that
/// holds bit `start`, the one farthest from `start` first. Fails where the
/// row does not hold one more run before them.
pub fn recordPatternInReverse(row: &BitArray, start: usize, counters: &mut [usize; 8]) -> (r:
    Result<(), Exceptions>)
    requires
        row.wf(),
        start < row@.len(),
    ensures
        r is Ok <==> recorded_in_reverse(row@, start as int, 8) is Some,
        r is Err ==> r->Err_0 == Exceptions::NotFoundException,
        r is Ok ==> final(counters)@.map_values(|c: usize| c as int) == recorded_in_reverse(
            row@,
            start as int,
            8,
        )->Some_0,
        r is Ok ==> forall|k: int| 0 <= k < 8 ==> #[trigger] final(counters)@[k] >= 1,
{
    let mut first: usize = runStart(row, start);
    let mut pos: usize = start;
    let mut k: usize = 0;
    while k < 8
        invariant
            row.wf(),
            k <= 8,
            first <= pos < row@.len(),
            first == run_start(row@, pos as int),
            run_before(row@, start as int, 8) == run_before(row@, pos as int, (8 - k) as nat),
        decreases 8 - k,
    {
        if first == 0 {
            return Err(Exceptions::NotFoundException);
        }
        pos = first - 1;
        first = runStart(row, pos);
        k += 1;
    }
    if first == 0 {
        return Err(Exceptions::NotFoundException);
    }
    recordPattern(row, first, counters)
}

} // verus!
