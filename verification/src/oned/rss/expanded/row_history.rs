//! What is decided on whole sequences of pairs: whether their checksum
//! holds, whether their finder patterns follow a known order, which rows
//! are kept for a stacked symbol, and which of the kept rows make up a
//! symbol.

use crate::oned::rss::data_character::DataCharacter;
use crate::oned::rss::expanded::expanded_pair::{
    copyPairs, holdsAll, holds_all, same_pairs, ExpandedPair,
};
use crate::oned::rss::expanded::expanded_row::{rows_view, ExpandedRow, RowView};
use crate::oned::rss::expanded::tables::{
    finder_sequence, FINDER_PATTERN_SEQUENCES, FINDER_PATTERN_SEQUENCE_LENGTHS,
};
use vstd::prelude::*;

verus! {

/// What a character adds to the checksum; nothing where it is missing.
pub open spec fn portion(c: Option<DataCharacter>) -> int {
    match c {
        Some(d) => d.checksum_portion as int,
        None => 0,
    }
}

/// One where the character is there, nothing where it is missing.
pub open spec fn present(c: Option<DataCharacter>) -> int {
    if c is Some {
        1
    } else {
        0
    }
}

/// The sum of what the characters of the first `n` pairs add to the
/// checksum: the left and the right character of each pair.
pub open spec fn portions_sum(pairs: Seq<ExpandedPair>, n: nat) -> int
    decreases n,
{
    if n == 0 {
        0
    } else {
        portions_sum(pairs, (n - 1) as nat) + portion(pairs[n - 1].left_char) + portion(
            pairs[n - 1].right_char,
        )
    }
}

/// The number of characters of the first `n` pairs: two for a pair with both
/// characters, one for a pair without a right character.
pub open spec fn characters_count(pairs: Seq<ExpandedPair>, n: nat) -> int
    decreases n,
{
    if n == 0 {
        0
    } else {
        characters_count(pairs, (n - 1) as nat) + present(pairs[n - 1].left_char) + present(
            pairs[n - 1].right_char,
        )
    }
}

/// The value that the check character of `pairs` has to have: 211 times the
/// number of characters above four, plus the sum of the checksum portions
/// modulo 211.
pub open spec fn check_value(pairs: Seq<ExpandedPair>) -> int {
    211 * (characters_count(pairs, pairs.len()) - 4) + portions_sum(pairs, pairs.len()) % 211
}

/// The checksum of `pairs` holds: the left character of the first pair, the
/// check character, has the value that the characters of all pairs ask for.
pub open spec fn checksum_holds(pairs: Seq<ExpandedPair>) -> bool {
    &&& pairs.len() >= 1
    &&& pairs[0].left_char is Some
    &&& check_value(pairs) == pairs[0].left_char->Some_0.value
}

/// The finder patterns of `pairs` are the first ones of the order for a
/// symbol of `k + 2` pairs.
pub open spec fn follows_sequence(pairs: Seq<ExpandedPair>, k: int) -> bool {
    &&& pairs.len() <= finder_sequence(k).len()
    &&& forall|j: int|
        0 <= j < pairs.len() ==> (#[trigger] pairs[j]).finder_pattern.value == finder_sequence(
            k,
        )[j]
}

/// The finder patterns of `pairs` follow one of the ten known orders, as
/// far as they go.
pub open spec fn valid_sequence(pairs: Seq<ExpandedPair>) -> bool {
    exists|k: int| 0 <= k < 10 && follows_sequence(pairs, k)
}

/// Where a row of number `row_number` goes into the rows `rows`: before the
/// first row from `from` on with a greater number, or behind all of them.
pub open spec fn insert_position(rows: Seq<RowView>, row_number: u32, from: int) -> int
    decreases rows.len() - from,
{
    if from < 0 || from >= rows.len() {
        rows.len() as int
    } else if rows[from].row_number > row_number {
        from
    } else {
        insert_position(rows, row_number, from + 1)
    }
}

/// One of the rows `rows` holds every pair of `pairs`.
pub open spec fn is_partial_row(pairs: Seq<ExpandedPair>, rows: Seq<RowView>) -> bool {
    exists|r: int| 0 <= r < rows.len() && holds_all((#[trigger] rows[r]).pairs, pairs)
}

/// The row `row` is a part of `pairs`: it has another number of pairs, and
/// `pairs` holds every one of them.
pub open spec fn is_part_of(row: RowView, pairs: Seq<ExpandedPair>) -> bool {
    row.pairs.len() != pairs.len() && holds_all(pairs, row.pairs)
}

/// The first `n` of the rows `rows` without those that are a part of
/// `pairs`.
pub open spec fn without_parts(rows: Seq<RowView>, pairs: Seq<ExpandedPair>, n: nat) -> Seq<RowView>
    decreases n,
{
    if n == 0 {
        Seq::empty()
    } else if is_part_of(rows[n - 1], pairs) {
        without_parts(rows, pairs, (n - 1) as nat)
    } else {
        without_parts(rows, pairs, (n - 1) as nat).push(rows[n - 1])
    }
}

/// The rows after the pairs `pairs`, read from row `row_number` of the
/// image, were stored. The history stays as it is where the row that would
/// come before the new one, or the one that would come behind it, holds the
/// same pairs in the same order, and where some row holds all of the pairs.
/// Otherwise the new row goes in by its number, and every row that is a part
/// of it goes out.
pub open spec fn stored(rows: Seq<RowView>, pairs: Seq<ExpandedPair>, row_number: u32) -> Seq<
    RowView,
> {
    let at = insert_position(rows, row_number, 0);
    let before_is_same = at > 0 && same_pairs(rows[at - 1].pairs, pairs);
    let behind_is_same = at < rows.len() && same_pairs(rows[at].pairs, pairs);
    if before_is_same || behind_is_same || is_partial_row(pairs, rows) {
        rows
    } else {
        let grown = rows.insert(at, RowView { pairs, row_number });
        without_parts(grown, pairs, grown.len())
    }
}

/// The rows are in the order of their numbers.
pub open spec fn in_row_order(rows: Seq<RowView>) -> bool {
    forall|i: int, j: int|
        0 <= i < j < rows.len() ==> (#[trigger] rows[i]).row_number <= (#[trigger] rows[j]).row_number
}

/// A row goes in behind the rows whose numbers are not greater than its
/// own.
pub proof fn lemma_insert_position(rows: Seq<RowView>, row_number: u32, from: int)
    requires
        0 <= from <= rows.len(),
    ensures
        from <= insert_position(rows, row_number, from) <= rows.len(),
        forall|i: int|
            from <= i < insert_position(rows, row_number, from) ==> (#[trigger] rows[i]).row_number
                <= row_number,
        insert_position(rows, row_number, from) < rows.len() ==> rows[insert_position(
            rows,
            row_number,
            from,
        )].row_number > row_number,
    decreases rows.len() - from,
{
    if from < rows.len() && rows[from].row_number <= row_number {
        lemma_insert_position(rows, row_number, from + 1);
    }
}

/// Rows that are left once parts were taken out are still in the order of
/// their numbers.
pub proof fn lemma_without_parts_order(rows: Seq<RowView>, pairs: Seq<ExpandedPair>, n: nat)
    requires
        in_row_order(rows),
        n <= rows.len(),
    ensures
        in_row_order(without_parts(rows, pairs, n)),
        forall|i: int|
            0 <= i < without_parts(rows, pairs, n).len() && n >= 1 ==> (#[trigger] without_parts(
                rows,
                pairs,
                n,
            )[i]).row_number <= rows[n - 1].row_number,
    decreases n,
{
    if n > 0 {
        lemma_without_parts_order(rows, pairs, (n - 1) as nat);
        let before = without_parts(rows, pairs, (n - 1) as nat);
        assert forall|i: int| 0 <= i < before.len() implies (#[trigger] before[i]).row_number
            <= rows[n - 1].row_number by {
            if n >= 2 {
                assert(before[i].row_number <= rows[n - 2].row_number);
                assert(rows[n - 2].row_number <= rows[n - 1].row_number);
            }
        }
    }
}

/// The history stays in the order of the row numbers when a row is stored.
pub proof fn lemma_stored_order(rows: Seq<RowView>, pairs: Seq<ExpandedPair>, row_number: u32)
    requires
        in_row_order(rows),
    ensures
        in_row_order(stored(rows, pairs, row_number)),
{
    let at = insert_position(rows, row_number, 0);
    lemma_insert_position(rows, row_number, 0);
    let row = RowView { pairs, row_number };
    let grown = rows.insert(at, row);
    assert forall|i: int, j: int| 0 <= i < j < grown.len() implies (#[trigger] grown[i]).row_number
        <= (#[trigger] grown[j]).row_number by {
        if j < at {
            assert(grown[i] == rows[i] && grown[j] == rows[j]);
        } else if j == at {
            assert(grown[i] == rows[i]);
        } else if i < at {
            assert(grown[i] == rows[i] && grown[j] == rows[j - 1]);
            assert(rows[i].row_number <= row_number);
            if at < rows.len() {
                assert(rows[at].row_number <= rows[j - 1].row_number || at == j - 1);
            }
        } else if i == at {
            assert(grown[j] == rows[j - 1]);
            assert(rows[at].row_number <= rows[j - 1].row_number || at == j - 1);
        } else {
            assert(grown[i] == rows[i - 1] && grown[j] == rows[j - 1]);
        }
    }
    lemma_without_parts_order(grown, pairs, grown.len());
}

/// The rows in the order in which they are searched.
pub open spec fn ordered(rows: Seq<RowView>, reverse: bool) -> Seq<RowView> {
    if reverse {
        rows.reverse()
    } else {
        rows
    }
}

/// The first sequence of pairs with a checksum that holds, among the
/// sequences made of `collected` and the pairs of some of the rows from
/// `current` on, taken in their order. Rows are added one by one as long as
/// the finder patterns follow a known order; each row is first tried in the
/// sequence and then left out of it.
pub open spec fn combined(rows: Seq<RowView>, collected: Seq<ExpandedPair>, current: int) -> Option<
    Seq<ExpandedPair>,
>
    decreases rows.len() - current,
{
    if current < 0 || current >= rows.len() {
        None
    } else {
        let candidate = collected + rows[current].pairs;
        let with_row = if valid_sequence(candidate) {
            if checksum_holds(candidate) {
                Some(candidate)
            } else {
                combined(rows, candidate, current + 1)
            }
        } else {
            None
        };
        match with_row {
            Some(found) => Some(found),
            None => combined(rows, collected, current + 1),
        }
    }
}

/// What a search of the rows gives, and the rows that are left after it. A
/// history of more than 25 rows is given up: it is cleared, and nothing is
/// found.
pub open spec fn searched(rows: Seq<RowView>, reverse: bool) -> (Option<Seq<ExpandedPair>>, Seq<RowView>) {
    if rows.len() > 25 {
        (None, Seq::empty())
    } else {
        (combined(ordered(rows, reverse), Seq::empty(), 0), rows)
    }
}

/// A sequence that was put together from rows is made of `collected` and
/// further pairs, its finder patterns follow a known order, and its
/// checksum holds.
pub proof fn lemma_combined(rows: Seq<RowView>, collected: Seq<ExpandedPair>, current: int)
    ensures
        combined(rows, collected, current) is Some ==> {
            let found = combined(rows, collected, current)->Some_0;
            &&& collected.is_prefix_of(found)
            &&& valid_sequence(found)
            &&& checksum_holds(found)
        },
    decreases rows.len() - current,
{
    if 0 <= current < rows.len() {
        let candidate = collected + rows[current].pairs;
        assert(collected.is_prefix_of(candidate));
        lemma_combined(rows, candidate, current + 1);
        lemma_combined(rows, collected, current + 1);
    }
}

/// A character with `delta` added to what it adds to the checksum.
pub open spec fn with_portion(c: Option<DataCharacter>, delta: int) -> Option<DataCharacter> {
    match c {
        Some(d) => Some(
            DataCharacter { value: d.value, checksum_portion: (d.checksum_portion + delta) as u32 },
        ),
        None => None,
    }
}

/// `pairs` with `delta` added to what one character adds to the checksum:
/// the left or the right character of pair `k`.
pub open spec fn with_portion_changed(pairs: Seq<ExpandedPair>, k: int, left: bool, delta: int) -> Seq<
    ExpandedPair,
> {
    pairs.update(
        k,
        if left {
            ExpandedPair { left_char: with_portion(pairs[k].left_char, delta), ..pairs[k] }
        } else {
            ExpandedPair { right_char: with_portion(pairs[k].right_char, delta), ..pairs[k] }
        },
    )
}

/// A checksum that holds does not hold any more once what one character
/// adds to it is off by one, whichever character of whichever pair it is.
pub proof fn lemma_checksum_perturbed(pairs: Seq<ExpandedPair>, k: int, left: bool, delta: int)
    requires
        checksum_holds(pairs),
        0 <= k < pairs.len(),
        delta == 1 || delta == -1,
        (if left {
            pairs[k].left_char
        } else {
            pairs[k].right_char
        }) is Some,
        0 <= portion(
            if left {
                pairs[k].left_char
            } else {
                pairs[k].right_char
            },
        ) + delta <= u32::MAX,
    ensures
        !checksum_holds(with_portion_changed(pairs, k, left, delta)),
{
    let other = with_portion_changed(pairs, k, left, delta);
    lemma_portion_changed(pairs, k, left, delta, pairs.len());
    assert(portions_sum(other, pairs.len()) == portions_sum(pairs, pairs.len()) + delta);
    assert(other[0].left_char is Some);
    assert(other[0].left_char->Some_0.value == pairs[0].left_char->Some_0.value);
}

/// Once what one character adds to the checksum is changed, the sum of the
/// first `n` pairs changes as much where it holds that character, and the
/// number of characters stays.
pub proof fn lemma_portion_changed(
    pairs: Seq<ExpandedPair>,
    k: int,
    left: bool,
    delta: int,
    n: nat,
)
    requires
        0 <= k < pairs.len(),
        n <= pairs.len(),
        (if left {
            pairs[k].left_char
        } else {
            pairs[k].right_char
        }) is Some,
        0 <= portion(
            if left {
                pairs[k].left_char
            } else {
                pairs[k].right_char
            },
        ) + delta <= u32::MAX,
    ensures
        portions_sum(with_portion_changed(pairs, k, left, delta), n) == portions_sum(pairs, n) + (
        if k < n {
            delta
        } else {
            0
        }),
        characters_count(with_portion_changed(pairs, k, left, delta), n) == characters_count(
            pairs,
            n,
        ),
    decreases n,
{
    if n > 0 {
        lemma_portion_changed(pairs, k, left, delta, (n - 1) as nat);
    }
}

/// Whether the checksum of `pairs` holds.
pub fn checkChecksum(pairs: &Vec<ExpandedPair>) -> (r: bool)
    ensures
        r == checksum_holds(pairs@),
{
    if pairs.len() == 0 {
        return false;
    }
    let firstPair: ExpandedPair = pairs[0];
    let checkCharacter: DataCharacter = match firstPair.getLeftChar() {
        Some(c) => c,
        None => {
            return false;
        },
    };
    let mut checksum: u128 = 0;
    let mut s: u128 = 0;
    let mut i: usize = 0;
    while i < pairs.len()
        invariant
            i <= pairs@.len(),
            checksum == portions_sum(pairs@, i as nat),
            s == characters_count(pairs@, i as nat),
            checksum <= i * 0x2_0000_0000,
            s <= 2 * i,
        decreases pairs@.len() - i,
    {
        let currentPair: ExpandedPair = pairs[i];
        match currentPair.getLeftChar() {
            Some(c) => {
                checksum = checksum + c.getChecksumPortion() as u128;
                s = s + 1;
            },
            None => {},
        }
        match currentPair.getRightChar() {
            Some(c) => {
                checksum = checksum + c.getChecksumPortion() as u128;
                s = s + 1;
            },
            None => {},
        }
        i += 1;
    }
    let checkCharacterValue: i128 = 211 * (s as i128 - 4) + (checksum % 211) as i128;
    checkCharacterValue == checkCharacter.getValue() as i128
}

/// Whether the finder patterns of `pairs` are the first ones of the order
/// for a symbol of `k + 2` pairs.
fn followsSequence(pairs: &Vec<ExpandedPair>, k: usize) -> (r: bool)
    requires
        k < 10,
    ensures
        r == follows_sequence(pairs@, k as int),
{
    if pairs.len() > FINDER_PATTERN_SEQUENCE_LENGTHS[k] {
        return false;
    }
    let mut j: usize = 0;
    while j < pairs.len()
        invariant
            k < 10,
            j <= pairs@.len() <= finder_sequence(k as int).len() <= 11,
            forall|t: int|
                0 <= t < j ==> (#[trigger] pairs@[t]).finder_pattern.value == finder_sequence(
                    k as int,
                )[t],
        decreases pairs@.len() - j,
    {
        if pairs[j].finder_pattern.value != FINDER_PATTERN_SEQUENCES[k][j] {
            return false;
        }
        j += 1;
    }
    true
}

/// Whether the finder patterns of `pairs` follow a known order, be it whole
/// or its start.
pub fn isValidSequence(pairs: &Vec<ExpandedPair>) -> (r: bool)
    ensures
        r == valid_sequence(pairs@),
{
    let mut k: usize = 0;
    while k < 10
        invariant
            k <= 10,
            forall|t: int| 0 <= t < k ==> !follows_sequence(pairs@, t),
        decreases 10 - k,
    {
        if followsSequence(pairs, k) {
            return true;
        }
        k += 1;
    }
    false
}

/// Whether one of the rows holds every pair of `pairs`.
pub fn isPartialRow(pairs: &Vec<ExpandedPair>, rows: &Vec<ExpandedRow>) -> (r: bool)
    ensures
        r == is_partial_row(pairs@, rows_view(rows@)),
{
    let mut i: usize = 0;
    while i < rows.len()
        invariant
            i <= rows@.len(),
            forall|t: int|
                0 <= t < i ==> !holds_all((#[trigger] rows_view(rows@)[t]).pairs, pairs@),
        decreases rows@.len() - i,
    {
        if holdsAll(&rows[i].pairs, pairs) {
            assert(holds_all(rows_view(rows@)[i as int].pairs, pairs@));
            return true;
        }
        i += 1;
    }
    false
}

/// Removes the rows that are a part of `pairs`.
pub fn removePartialRows(pairs: &Vec<ExpandedPair>, rows: &mut Vec<ExpandedRow>)
    ensures
        rows_view(final(rows)@) == without_parts(
            rows_view(old(rows)@),
            pairs@,
            old(rows)@.len(),
        ),
{
    let ghost before = rows_view(rows@);
    let ghost mut done: nat = 0;
    let mut i: usize = 0;
    while i < rows.len()
        invariant
            before == rows_view(old(rows)@),
            i <= rows@.len(),
            done + (rows@.len() - i) == before.len(),
            rows_view(rows@).subrange(0, i as int) == without_parts(before, pairs@, done),
            rows_view(rows@).subrange(i as int, rows@.len() as int) == before.subrange(
                done as int,
                before.len() as int,
            ),
        decreases rows@.len() - i,
    {
        let ghost now = rows_view(rows@);
        proof {
            let tail = now.subrange(i as int, now.len() as int);
            let rest = before.subrange(done as int, before.len() as int);
            assert(tail == rest);
            assert forall|u: int| i <= u < now.len() implies #[trigger] now[u] == before[u - i
                + done] by {
                assert(tail[u - i] == rest[u - i]);
            }
            assert(now[i as int] == before[done as int]);
        }
        let isPart: bool = rows[i].pairs.len() != pairs.len() && holdsAll(pairs, &rows[i].pairs);
        if isPart {
            // `pairs` holds all the pairs of the row
            let gone = rows.remove(i);
            proof {
                assert(rows_view(rows@) =~= now.remove(i as int));
                assert(rows_view(rows@).subrange(0, i as int) =~= now.subrange(0, i as int));
                assert(rows_view(rows@).subrange(i as int, rows@.len() as int) =~= before.subrange(
                    (done + 1) as int,
                    before.len() as int,
                ));
                done = done + 1;
            }
        } else {
            proof {
                assert(rows_view(rows@).subrange(0, i + 1) =~= without_parts(
                    before,
                    pairs@,
                    done,
                ).push(before[done as int]));
                assert(rows_view(rows@).subrange(i + 1, rows@.len() as int) =~= before.subrange(
                    (done + 1) as int,
                    before.len() as int,
                ));
                done = done + 1;
            }
            i += 1;
        }
    }
    assert(rows_view(rows@).subrange(0, rows@.len() as int) =~= rows_view(rows@));
}

/// Stores the pairs `pairs`, read from row `rowNumber` of the image, in the
/// rows.
pub fn storeRow(rows: &mut Vec<ExpandedRow>, pairs: &Vec<ExpandedPair>, rowNumber: u32)
    ensures
        rows_view(final(rows)@) == stored(rows_view(old(rows)@), pairs@, rowNumber),
        in_row_order(rows_view(old(rows)@)) ==> in_row_order(rows_view(final(rows)@)),
{
    proof {
        if in_row_order(rows_view(rows@)) {
            lemma_stored_order(rows_view(rows@), pairs@, rowNumber);
        }
    }
    let ghost before = rows_view(rows@);
    // Discard if duplicate above or below; otherwise insert in order by row number.
    let mut insertPos: usize = 0;
    let mut prevIsSame: bool = false;
    let mut nextIsSame: bool = false;
    let mut searching: bool = true;
    while searching && insertPos < rows.len()
        invariant
            before == rows_view(rows@),
            insertPos <= rows@.len(),
            searching ==> insert_position(before, rowNumber, 0) == insert_position(
                before,
                rowNumber,
                insertPos as int,
            ),
            !searching ==> insert_position(before, rowNumber, 0) == insertPos && insertPos
                < rows@.len(),
            searching ==> !nextIsSame,
            !searching ==> nextIsSame == same_pairs(before[insertPos as int].pairs, pairs@),
            insertPos == 0 ==> !prevIsSame,
            insertPos > 0 ==> prevIsSame == same_pairs(before[insertPos - 1].pairs, pairs@),
        decreases
                rows@.len() - insertPos + (if searching {
                    1int
                } else {
                    0int
                }),
    {
        assert(before[insertPos as int] == rows@[insertPos as int]@);
        if rows[insertPos].getRowNumber() > rowNumber {
            nextIsSame = rows[insertPos].isEquivalent(pairs);
            searching = false;
        } else {
            prevIsSame = rows[insertPos].isEquivalent(pairs);
            insertPos += 1;
        }
    }
    if nextIsSame || prevIsSame {
        return ;
    }
    // A row that was read in part only (2 pairs found in place of 3) would
    // keep the symbol from being found, so partial rows are merged.
    // Is the row a part of a row that is stored?
    if isPartialRow(pairs, rows) {
        return ;
    }
    rows.insert(insertPos, ExpandedRow::new(copyPairs(pairs), rowNumber));
    proof {
        assert(rows_view(rows@) =~= before.insert(
            insertPos as int,
            RowView { pairs: pairs@, row_number: rowNumber },
        ));
    }
    removePartialRows(pairs, rows);
}

/// Searches the rows from `currentRow` on, in their order or in reverse,
/// for rows that make up a symbol together with the pairs `collected`.
pub fn checkRowsDetails(
    rows: &Vec<ExpandedRow>,
    reverse: bool,
    collected: &Vec<ExpandedPair>,
    currentRow: usize,
) -> (r: Option<Vec<ExpandedPair>>)
    requires
        rows@.len() <= 25,
    ensures
        r is Some <==> combined(
            ordered(rows_view(rows@), reverse),
            collected@,
            currentRow as int,
        ) is Some,
        r is Some ==> r->Some_0@ == combined(
            ordered(rows_view(rows@), reverse),
            collected@,
            currentRow as int,
        )->Some_0,
        r is Some ==> collected@.is_prefix_of(r->Some_0@) && valid_sequence(r->Some_0@)
            && checksum_holds(r->Some_0@),
    decreases rows@.len() - currentRow,
{
    proof {
        lemma_combined(ordered(rows_view(rows@), reverse), collected@, currentRow as int);
    }
    if currentRow >= rows.len() {
        return None;
    }
    let at: usize = if reverse {
        rows.len() - 1 - currentRow
    } else {
        currentRow
    };
    let row: &ExpandedRow = &rows[at];
    assert(ordered(rows_view(rows@), reverse)[currentRow as int] == row@);
    let mut candidate: Vec<ExpandedPair> = copyPairs(collected);
    let mut j: usize = 0;
    while j < row.pairs.len()
        invariant
            j <= row.pairs@.len(),
            candidate@ == collected@ + row.pairs@.subrange(0, j as int),
        decreases row.pairs@.len() - j,
    {
        candidate.push(row.pairs[j]);
        j += 1;
        assert(candidate@ =~= collected@ + row.pairs@.subrange(0, j as int));
    }
    assert(row.pairs@.subrange(0, row.pairs@.len() as int) =~= row.pairs@);
    if isValidSequence(&candidate) {
        if checkChecksum(&candidate) {
            return Some(candidate);
        }
        // try to add more rows
        match checkRowsDetails(rows, reverse, &candidate, currentRow + 1) {
            Some(found) => {
                return Some(found);
            },
            None => {},
        }
    }
    // this row did not do: try the next one in its place
    checkRowsDetails(rows, reverse, collected, currentRow + 1)
}

} // verus!
