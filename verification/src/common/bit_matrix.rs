//! A matrix of bits, packed row by row into 32-bit words.

use crate::common::bit_array::{bits_of, word_bit, words_for, BitArray};
use crate::common::word::{
    bit, highest_set_bit, lemma_bit_binary, lemma_bit_constants, lemma_bit_masks, lemma_bit_test,
    lemma_word_zero, lowest_set_bit, range_mask,
};
use crate::common::text::{chars_of, has_at, starts_with_at};
use crate::exceptions::IllegalArgumentException;
use vstd::pervasive::unreached;
use vstd::prelude::*;
use vstd::std_specs::cmp::PartialEqSpecImpl;

verus! {

/// The cell in column `x` of row `y` of a matrix whose rows take `row_size`
/// words each: bit `x % 32` of word `y * row_size + x / 32`.
pub open spec fn cell_of(words: Seq<u32>, row_size: nat, x: int, y: int) -> bool {
    let at = y * row_size + x / 32;
    0 <= at < words.len() && bit(words[at], x % 32)
}

/// The rows of cells that `words` pack, top row first.
pub open spec fn cells_of(words: Seq<u32>, row_size: nat, width: nat, height: nat) -> Seq<
    Seq<bool>,
> {
    Seq::new(height, |y: int| Seq::new(width, |x: int| cell_of(words, row_size, x, y)))
}

/// A matrix of the given dimensions in which every cell has the same value.
pub open spec fn uniform(width: nat, height: nat, value: bool) -> Seq<Seq<bool>> {
    Seq::new(height, |y: int| Seq::new(width, |x: int| value))
}

/// Rows of cells form a matrix: there is a row, it has a cell, and all rows
/// are as long as the first.
pub open spec fn well_shaped(m: Seq<Seq<bool>>) -> bool {
    &&& m.len() >= 1
    &&& m[0].len() >= 1
    &&& forall|y: int| 0 <= y < m.len() ==> (#[trigger] m[y]).len() == m[0].len()
}

/// `m` with the cell in column `x` of row `y` replaced by `value`.
pub open spec fn with_cell(m: Seq<Seq<bool>>, x: int, y: int, value: bool) -> Seq<Seq<bool>> {
    m.update(y, m[y].update(x, value))
}

/// `m` turned by 90 degrees counterclockwise: the last column becomes the
/// first row.
pub open spec fn rotated90(m: Seq<Seq<bool>>) -> Seq<Seq<bool>> {
    Seq::new(m[0].len(), |r: int| Seq::new(m.len(), |c: int| m[c][m[0].len() - 1 - r]))
}

/// `m` turned by 180 degrees.
pub open spec fn rotated180(m: Seq<Seq<bool>>) -> Seq<Seq<bool>> {
    Seq::new(m.len(), |r: int| Seq::new(m[0].len(), |c: int| m[m.len() - 1 - r][m[0].len() - 1 - c]))
}

/// The words of `m` turned by a quarter can be counted in a `usize`.
pub open spec fn quarter_turn_fits(m: Seq<Seq<bool>>) -> bool {
    words_for(m.len() as int) * m[0].len() <= usize::MAX
}

/// `m` turned counterclockwise by `degrees`, for the four multiples of 90
/// within a full turn.
pub open spec fn rotated(m: Seq<Seq<bool>>, degrees: int) -> Seq<Seq<bool>> {
    if degrees % 360 == 90 {
        rotated90(m)
    } else if degrees % 360 == 180 {
        rotated180(m)
    } else if degrees % 360 == 270 {
        rotated180(rotated90(m))
    } else {
        m
    }
}

/// `m` with every cell set that lies in a column from `left` to `right` and
/// a row from `top` to `bottom`, `right` and `bottom` excluded.
pub open spec fn with_region(m: Seq<Seq<bool>>, left: int, top: int, right: int, bottom: int) -> Seq<
    Seq<bool>,
> {
    Seq::new(
        m.len(),
        |y: int| Seq::new(m[0].len(), |x: int| (left <= x < right && top <= y < bottom) || m[y][x]),
    )
}

/// The cells of `a`, each flipped where the cell of `b` at its place is set.
pub open spec fn xored(a: Seq<Seq<bool>>, b: Seq<Seq<bool>>) -> Seq<Seq<bool>> {
    Seq::new(a.len(), |y: int| Seq::new(a[0].len(), |x: int| a[y][x] != b[y][x]))
}

/// A matrix that was turned by a quarter, or by three quarters, can be
/// turned by a quarter again: the words of the matrix that comes of it are
/// as many as those of the matrix before the first turn. `row_size` and
/// `words` are the words of one row and of all rows of `m`.
pub proof fn lemma_turned_back_fits(m: Seq<Seq<bool>>, row_size: nat, words: nat)
    requires
        well_shaped(m),
        row_size == words_for(m[0].len() as int),
        words == row_size * m.len(),
        words <= usize::MAX,
    ensures
        quarter_turn_fits(rotated90(m)),
        quarter_turn_fits(rotated180(rotated90(m))),
{
}

/// Turning a matrix by 90 degrees and then by 270 gives the matrix back, and
/// so does turning it by 270 and then by 90.
pub proof fn lemma_rotate_90_270(m: Seq<Seq<bool>>)
    requires
        well_shaped(m),
    ensures
        rotated(rotated(m, 90), 270) == m,
        rotated(rotated(m, 270), 90) == m,
{
    lemma_same_cells(rotated(rotated(m, 90), 270), m);
    lemma_same_cells(rotated(rotated(m, 270), 90), m);
}

/// Turning a matrix twice by 180 degrees gives the matrix back.
pub proof fn lemma_rotate_180_180(m: Seq<Seq<bool>>)
    requires
        well_shaped(m),
    ensures
        rotated(rotated(m, 180), 180) == m,
{
    lemma_same_cells(rotated(rotated(m, 180), 180), m);
}

/// Turning a matrix by 0 degrees, or by a full turn, leaves it as it is.
pub proof fn lemma_rotate_0(m: Seq<Seq<bool>>)
    ensures
        rotated(m, 0) == m,
        rotated(m, 360) == m,
{
}

/// Turning a matrix four times by 90 degrees gives the matrix back.
pub proof fn lemma_rotate_90_four_times(m: Seq<Seq<bool>>)
    requires
        well_shaped(m),
    ensures
        rotated(rotated(rotated(rotated(m, 90), 90), 90), 90) == m,
{
    let two = rotated(rotated(m, 90), 90);
    lemma_same_cells(two, rotated180(m));
    lemma_same_cells(rotated(rotated(two, 90), 90), rotated180(two));
    lemma_same_cells(rotated180(rotated180(m)), m);
}

/// `(left, top, width, height)` is the smallest rectangle that holds every
/// set cell of `m`: no set cell lies outside it, and each of its four sides
/// touches a set cell.
pub open spec fn encloses(m: Seq<Seq<bool>>, left: int, top: int, width: int, height: int) -> bool {
    &&& 0 <= left
    &&& 0 <= top
    &&& width >= 1
    &&& height >= 1
    &&& left + width <= m[0].len()
    &&& top + height <= m.len()
    &&& forall|x: int, y: int|
        0 <= y < m.len() && 0 <= x < m[y].len() && #[trigger] m[y][x] ==> left <= x < left + width
            && top <= y < top + height
    &&& exists|y: int| 0 <= y < m.len() && #[trigger] m[y][left]
    &&& exists|y: int| 0 <= y < m.len() && #[trigger] m[y][left + width - 1]
    &&& exists|x: int| 0 <= x < m[0].len() && #[trigger] m[top][x]
    &&& exists|x: int| 0 <= x < m[0].len() && #[trigger] m[top + height - 1][x]
}

/// The cell in column `x1` of row `y1` comes before the cell in column `x2`
/// of row `y2` when the cells are read row by row.
pub open spec fn reads_before(x1: int, y1: int, x2: int, y2: int) -> bool {
    y1 < y2 || (y1 == y2 && x1 < x2)
}

/// The cell in column `x` of row `y` is the first set cell of `m`, read row
/// by row.
pub open spec fn first_set_cell(m: Seq<Seq<bool>>, x: int, y: int) -> bool {
    &&& 0 <= y < m.len()
    &&& 0 <= x < m[y].len()
    &&& m[y][x]
    &&& forall|cx: int, cy: int|
        0 <= cy < m.len() && 0 <= cx < m[cy].len() && #[trigger] m[cy][cx] ==> !reads_before(
            cx,
            cy,
            x,
            y,
        )
}

/// The cell in column `x` of row `y` is the last set cell of `m`, read row
/// by row.
pub open spec fn last_set_cell(m: Seq<Seq<bool>>, x: int, y: int) -> bool {
    &&& 0 <= y < m.len()
    &&& 0 <= x < m[y].len()
    &&& m[y][x]
    &&& forall|cx: int, cy: int|
        0 <= cy < m.len() && 0 <= cx < m[cy].len() && #[trigger] m[cy][cx] ==> !reads_before(
            x,
            y,
            cx,
            cy,
        )
}

/// The text of one row: `set` for each set cell and `unset` for each clear
/// one.
pub open spec fn row_text(row: Seq<bool>, set: Seq<char>, unset: Seq<char>) -> Seq<char>
    decreases row.len(),
{
    if row.len() == 0 {
        Seq::empty()
    } else {
        row_text(row.drop_last(), set, unset) + (if row.last() {
            set
        } else {
            unset
        })
    }
}

/// The text of a matrix: the text of each row, top row first, each followed
/// by `separator`.
pub open spec fn matrix_text(
    m: Seq<Seq<bool>>,
    set: Seq<char>,
    unset: Seq<char>,
    separator: Seq<char>,
) -> Seq<char>
    decreases m.len(),
{
    if m.len() == 0 {
        Seq::empty()
    } else {
        matrix_text(m.drop_last(), set, unset, separator) + row_text(m.last(), set, unset)
            + separator
    }
}

/// The row length that holds once a row of `count - row_start` cells ends,
/// `-1` standing for none yet; nothing where the row's length differs from
/// the one that holds. An empty row counts as no row.
pub open spec fn closed_row(count: int, row_start: int, row_length: int) -> Option<int> {
    if count <= row_start {
        Some(row_length)
    } else if row_length == -1 {
        Some(count - row_start)
    } else if count - row_start != row_length {
        None
    } else {
        Some(row_length)
    }
}

/// Reads the text of a matrix from `pos` on, after `cells` were read, the
/// last `cells.len() - row_start` of them in the row that is open, `rows`
/// rows were closed and `row_length` was found as their length (`-1`: none
/// yet). A line feed or carriage return closes the open row; otherwise `set`
/// at this place is a set cell, and otherwise `unset` a clear one. Gives the
/// cells, the start of the open row, the row length and the number of closed
/// rows at the end of the text.
pub open spec fn scan(
    text: Seq<char>,
    set: Seq<char>,
    unset: Seq<char>,
    pos: int,
    cells: Seq<bool>,
    row_start: int,
    row_length: int,
    rows: int,
) -> Result<(Seq<bool>, int, int, int), IllegalArgumentException>
    decreases text.len() - pos,
{
    if pos < 0 || pos >= text.len() {
        Ok((cells, row_start, row_length, rows))
    } else if text[pos] == '\n' || text[pos] == '\r' {
        match closed_row(cells.len() as int, row_start, row_length) {
            None => Err(IllegalArgumentException::RowLengthsDontMatch),
            Some(length) => scan(
                text,
                set,
                unset,
                pos + 1,
                cells,
                cells.len() as int,
                length,
                if cells.len() > row_start {
                    rows + 1
                } else {
                    rows
                },
            ),
        }
    } else if has_at(text, set, pos) {
        scan(text, set, unset, pos + set.len(), cells.push(true), row_start, row_length, rows)
    } else if has_at(text, unset, pos) {
        scan(text, set, unset, pos + unset.len(), cells.push(false), row_start, row_length, rows)
    } else {
        Err(IllegalArgumentException::IllegalCharacter)
    }
}

/// The matrix that a text stands for. Each line of the text is a row, made
/// of `set` for a set cell and `unset` for a clear one; lines end with a line
/// feed or a carriage return, and the last line need not end with one. Empty
/// lines are passed over. All rows have the same length.
pub open spec fn parsed(text: Seq<char>, set: Seq<char>, unset: Seq<char>) -> Result<
    Seq<Seq<bool>>,
    IllegalArgumentException,
> {
    match scan(text, set, unset, 0, Seq::empty(), 0, -1, 0) {
        Err(e) => Err(e),
        Ok((cells, row_start, row_length, rows)) => match closed_row(
            cells.len() as int,
            row_start,
            row_length,
        ) {
            None => Err(IllegalArgumentException::RowLengthsDontMatch),
            Some(width) => {
                let height = if cells.len() > row_start {
                    rows + 1
                } else {
                    rows
                };
                if width < 1 || height < 1 {
                    Err(IllegalArgumentException::DimensionsNotPositive)
                } else if width > u32::MAX || height > u32::MAX || words_for(width) * height
                    > usize::MAX {
                    Err(IllegalArgumentException::DimensionsTooLarge)
                } else {
                    Ok(
                        Seq::new(
                            height as nat,
                            |y: int| Seq::new(width as nat, |x: int| cells[y * width + x]),
                        ),
                    )
                }
            },
        },
    }
}

/// A row of `width - 1` more cells ends where the next row starts.
proof fn lemma_next_row(rows: int, width: int)
    by (nonlinear_arith)
    ensures
        rows * width + width == (rows + 1) * width,
        (rows + 1) * width == width * (rows + 1),
        rows * width == width * rows,
{
}

/// Every cell of `m` is clear.
pub open spec fn all_clear(m: Seq<Seq<bool>>) -> bool {
    forall|x: int, y: int| 0 <= y < m.len() && 0 <= x < m[y].len() ==> !#[trigger] m[y][x]
}

/// Word `k` of row `y` lies inside the words of a matrix of `height` rows.
pub proof fn lemma_offset_bound(y: int, k: int, row_size: int, height: int)
    by (nonlinear_arith)
    requires
        0 <= y < height,
        0 <= k < row_size,
    ensures
        0 <= y * row_size + k < row_size * height,
        y * row_size + row_size <= row_size * height,
        0 <= y * row_size,
{
}

/// A word belongs to one row and one place in it, and the words of an
/// earlier row come first.
pub proof fn lemma_offset_unique(y1: int, k1: int, y2: int, k2: int, row_size: int)
    by (nonlinear_arith)
    requires
        0 <= k1 < row_size,
        0 <= k2 < row_size,
    ensures
        y1 * row_size + k1 == y2 * row_size + k2 ==> y1 == y2 && k1 == k2,
        y1 < y2 ==> y1 * row_size + k1 < y2 * row_size + k2,
{
}

/// Replacing one word changes the cells that it holds and no others.
pub proof fn lemma_word_update(
    words: Seq<u32>,
    row_size: nat,
    height: nat,
    y0: int,
    k: int,
    w: u32,
)
    requires
        0 <= y0 < height,
        0 <= k < row_size,
        words.len() == row_size * height,
    ensures
        forall|x: int, y: int|
            0 <= y < height && 0 <= x < 32 * row_size ==> #[trigger] cell_of(
                words.update(y0 * row_size + k, w),
                row_size,
                x,
                y,
            ) == (if y == y0 && x / 32 == k {
                bit(w, x % 32)
            } else {
                cell_of(words, row_size, x, y)
            }),
{
    assert forall|x: int, y: int| 0 <= y < height && 0 <= x < 32 * row_size implies #[trigger] cell_of(
        words.update(y0 * row_size + k, w),
        row_size,
        x,
        y,
    ) == (if y == y0 && x / 32 == k {
        bit(w, x % 32)
    } else {
        cell_of(words, row_size, x, y)
    }) by {
        lemma_offset_bound(y, x / 32, row_size as int, height as int);
        lemma_offset_bound(y0, k, row_size as int, height as int);
        lemma_offset_unique(y, x / 32, y0, k, row_size as int);
    }
}

/// Matrices with the same rows of the same cells are the same matrix.
pub proof fn lemma_same_cells(a: Seq<Seq<bool>>, b: Seq<Seq<bool>>)
    requires
        a.len() == b.len(),
        forall|y: int| 0 <= y < a.len() ==> (#[trigger] a[y]).len() == b[y].len(),
        forall|x: int, y: int| 0 <= y < a.len() && 0 <= x < a[y].len() ==> #[trigger] a[y][x] == b[y][x],
    ensures
        a == b,
{
    assert forall|y: int| 0 <= y < a.len() implies #[trigger] a[y] == b[y] by {
        assert(a[y] =~= b[y]);
    }
    assert(a =~= b);
}

/// A matrix of bits. `x` is the column and `y` the row of a cell; the cell in
/// column 0 of row 0 is the top left one.
///
/// The matrix is the sequence of its rows, each the sequence of its cells.
/// Each row starts a new word; the bits of a row's last word that lie behind
/// the width are never read as cells.
#[derive(Debug)]
pub struct BitMatrix {
    width: u32,
    height: u32,
    rowSize: usize,
    bits: Vec<u32>,
}

impl View for BitMatrix {
    type V = Seq<Seq<bool>>;

    open spec fn view(&self) -> Seq<Seq<bool>> {
        cells_of(self.words(), self.spec_row_size(), self.spec_width(), self.spec_height())
    }
}

impl BitMatrix {
    /// The words that hold the cells, row after row.
    pub closed spec fn words(&self) -> Seq<u32> {
        self.bits@
    }

    /// The number of columns.
    pub closed spec fn spec_width(&self) -> nat {
        self.width as nat
    }

    /// The number of rows.
    pub closed spec fn spec_height(&self) -> nat {
        self.height as nat
    }

    /// The number of words that hold one row.
    pub closed spec fn spec_row_size(&self) -> nat {
        self.rowSize as nat
    }

    /// The matrix has a cell, each row takes as many words as its width
    /// asks for, and the words are those of all rows, no more than a `usize`
    /// counts.
    pub open spec fn wf(&self) -> bool {
        &&& self.spec_width() >= 1
        &&& self.spec_height() >= 1
        &&& self.spec_row_size() == words_for(self.spec_width() as int)
        &&& self.words().len() == self.spec_row_size() * self.spec_height()
        &&& self.words().len() <= usize::MAX
    }

    /// The cell in column `x` of row `y`; `x` may reach into the last word of
    /// the row behind the width.
    pub open spec fn cell(&self, x: int, y: int) -> bool {
        cell_of(self.words(), self.spec_row_size(), x, y)
    }

    /// A square matrix of clear cells.
    pub fn with_single_dimension(dimension: u32) -> (r: Result<Self, IllegalArgumentException>)
        ensures
            dimension < 1 ==> r == Err::<Self, IllegalArgumentException>(
                IllegalArgumentException::DimensionsNotPositive,
            ),
            dimension >= 1 && words_for(dimension as int) * dimension > usize::MAX ==> r == Err::<
                Self,
                IllegalArgumentException,
            >(IllegalArgumentException::DimensionsTooLarge),
            dimension >= 1 && words_for(dimension as int) * dimension <= usize::MAX ==> r.is_ok()
                && r.unwrap().wf() && r.unwrap()@ == uniform(
                dimension as nat,
                dimension as nat,
                false,
            ),
    {
        Self::new(dimension, dimension)
    }

    /// A matrix of clear cells with `width` columns and `height` rows.
    pub fn new(width: u32, height: u32) -> (r: Result<Self, IllegalArgumentException>)
        ensures
            width < 1 || height < 1 ==> r == Err::<Self, IllegalArgumentException>(
                IllegalArgumentException::DimensionsNotPositive,
            ),
            width >= 1 && height >= 1 && words_for(width as int) * height > usize::MAX ==> r
                == Err::<Self, IllegalArgumentException>(
                IllegalArgumentException::DimensionsTooLarge,
            ),
            width >= 1 && height >= 1 && words_for(width as int) * height <= usize::MAX
                ==> r.is_ok() && r.unwrap().wf() && r.unwrap()@ == uniform(
                width as nat,
                height as nat,
                false,
            ),
    {
        if width < 1 || height < 1 {
            return Err(IllegalArgumentException::DimensionsNotPositive);
        }
        let rowSize: usize = ((width - 1) / 32 + 1) as usize;
        assert(rowSize as int == words_for(width as int));
        match rowSize.checked_mul(height as usize) {
            Some(count) => {
                let m = Self { width, height, rowSize, bits: vec![0u32; count] };
                proof {
                    assert forall|x: int, y: int|
                        0 <= y < height && 0 <= x < width implies !#[trigger] m@[y][x] by {
                        lemma_offset_bound(y, x / 32, rowSize as int, height as int);
                        lemma_bit_constants(x % 32);
                    }
                    lemma_same_cells(m@, uniform(width as nat, height as nat, false));
                }
                Ok(m)
            },
            None => Err(IllegalArgumentException::DimensionsTooLarge),
        }
    }

    /// The matrix of the given dimensions whose rows, of `rowSize` words
    /// each, are packed in `bits`.
    fn with_all_data(width: u32, height: u32, rowSize: usize, bits: Vec<u32>) -> (r: Self)
        ensures
            r.spec_width() == width,
            r.spec_height() == height,
            r.spec_row_size() == rowSize,
            r.words() == bits@,
    {
        Self { width, height, rowSize, bits }
    }

    /// The index of word `k` of row `y`.
    fn offset(&self, k: usize, y: u32) -> (o: usize)
        requires
            self.wf(),
            y < self.spec_height(),
            k < self.spec_row_size(),
        ensures
            o == y * self.spec_row_size() + k,
            o < self.words().len(),
    {
        let total: usize = self.bits.len();
        proof {
            lemma_offset_bound(y as int, k as int, self.rowSize as int, self.height as int);
            assert(y * self.rowSize + k < total);
        }
        (y as usize) * self.rowSize + k
    }

    /// The mask of the bits of word `k` of a row that are cells.
    fn cellMask(&self, k: usize) -> (m: u32)
        requires
            self.wf(),
            k < self.spec_row_size(),
        ensures
            forall|i: int| bit(m, i) == (0 <= i < 32 && 32 * k + i < self.spec_width()),
    {
        if k + 1 < self.rowSize {
            proof {
                assert forall|i: int| bit(0xffff_ffffu32, i) == (0 <= i < 32) by {
                    lemma_bit_constants(i);
                }
            }
            0xffff_ffffu32
        } else {
            range_mask(0, (self.width - 1) % 32)
        }
    }

    /// Word `k` of row `y` with the bits behind the width cleared.
    fn cellsWord(&self, k: usize, y: u32) -> (w: u32)
        requires
            self.wf(),
            y < self.spec_height(),
            k < self.spec_row_size(),
        ensures
            forall|i: int|
                0 <= i < 32 ==> #[trigger] bit(w, i) == (32 * k + i < self.spec_width()
                    && self@[y as int][32 * k + i]),
            forall|cx: int|
                32 * k <= cx < 32 * k + 32 && cx < self.spec_width()
                    && #[trigger] self@[y as int][cx] ==> bit(w, cx - 32 * k),
            w == 0 <==> forall|cx: int|
                32 * k <= cx < 32 * k + 32 && cx < self.spec_width() ==> !#[trigger] self@[y as int][cx],
    {
        let mask: u32 = self.cellMask(k);
        let raw: u32 = self.word(k, y);
        let w: u32 = raw & mask;
        proof {
            assert forall|i: int| 0 <= i < 32 implies #[trigger] bit(w, i) == (32 * k + i
                < self.spec_width() && self@[y as int][32 * k + i]) by {
                lemma_bit_binary(raw, mask, i);
                if 32 * k + i < self.spec_width() {
                    assert(self@[y as int][32 * k + i] == self.cell(32 * k + i, y as int));
                }
            }
            assert forall|cx: int|
                32 * k <= cx < 32 * k + 32 && cx < self.spec_width()
                    && #[trigger] self@[y as int][cx] implies bit(w, cx - 32 * k) by {
                assert(bit(w, cx - 32 * k) == (32 * k + (cx - 32 * k) < self.spec_width()
                    && self@[y as int][32 * k + (cx - 32 * k)]));
            }
            lemma_word_zero(w);
            if w != 0 {
                let i = choose|i: int| 0 <= i < 32 && bit(w, i);
                assert(self@[y as int][32 * k + i]);
            } else {
                assert forall|cx: int|
                    32 * k <= cx < 32 * k + 32 && cx < self.spec_width() implies !#[trigger] self@[y
                    as int][cx] by {
                    assert(!bit(w, cx - 32 * k));
                }
            }
        }
        w
    }

    /// Whether the cell in column `x` of row `y` is set.
    pub fn get(&self, x: u32, y: u32) -> (r: bool)
        requires
            self.wf(),
            x < self@[0].len(),
            y < self@.len(),
        ensures
            r == self@[y as int][x as int],
    {
        let o: usize = self.offset((x / 32) as usize, y);
        proof {
            lemma_bit_test(self.bits@[o as int], x % 32);
        }
        (self.bits[o] & (1u32 << (x % 32))) != 0
    }

    /// Replaces word `k` of row `y`.
    fn putWord(&mut self, k: usize, y: u32, w: u32)
        requires
            old(self).wf(),
            y < old(self).spec_height(),
            k < old(self).spec_row_size(),
        ensures
            final(self).wf(),
            final(self).spec_width() == old(self).spec_width(),
            final(self).spec_height() == old(self).spec_height(),
            final(self).spec_row_size() == old(self).spec_row_size(),
            final(self).words() == old(self).words().update(y * old(self).spec_row_size() + k, w),
            forall|cx: int, cy: int|
                0 <= cy < old(self).spec_height() && 0 <= cx < 32 * old(self).spec_row_size()
                    ==> #[trigger] final(self).cell(cx, cy) == (if cy == y && cx / 32 == k {
                    bit(w, cx % 32)
                } else {
                    old(self).cell(cx, cy)
                }),
    {
        let o: usize = self.offset(k, y);
        proof {
            lemma_word_update(self.bits@, self.rowSize as nat, self.height as nat, y as int, k as int, w);
        }
        self.bits[o] = w;
    }

    /// Word `k` of row `y`.
    fn word(&self, k: usize, y: u32) -> (w: u32)
        requires
            self.wf(),
            y < self.spec_height(),
            k < self.spec_row_size(),
        ensures
            w == self.words()[y * self.spec_row_size() + k],
            forall|x: int| 32 * k <= x < 32 * k + 32 ==> bit(w, x % 32) == #[trigger] self.cell(x, y as int),
    {
        let o: usize = self.offset(k, y);
        self.bits[o]
    }

    /// Sets the cell in column `x` of row `y`.
    pub fn set(&mut self, x: u32, y: u32)
        requires
            old(self).wf(),
            x < old(self)@[0].len(),
            y < old(self)@.len(),
        ensures
            final(self).wf(),
            final(self)@ == with_cell(old(self)@, x as int, y as int, true),
    {
        let k: usize = (x / 32) as usize;
        let w: u32 = self.word(k, y);
        let mask: u32 = 1u32 << (x % 32);
        self.putWord(k, y, w | mask);
        proof {
            assert forall|cx: int, cy: int|
                0 <= cy < self.height && 0 <= cx < self.width implies #[trigger] self@[cy][cx] == with_cell(
                old(self)@,
                x as int,
                y as int,
                true,
            )[cy][cx] by {
                lemma_bit_binary(w, mask, cx % 32);
                lemma_bit_masks(x % 32, cx % 32);
                assert(old(self)@[cy][cx] == old(self).cell(cx, cy));
                assert(self@[cy][cx] == self.cell(cx, cy));
            }
            lemma_same_cells(self@, with_cell(old(self)@, x as int, y as int, true));
        }
    }

    /// Clears the cell in column `x` of row `y`.
    pub fn unset(&mut self, x: u32, y: u32)
        requires
            old(self).wf(),
            x < old(self)@[0].len(),
            y < old(self)@.len(),
        ensures
            final(self).wf(),
            final(self)@ == with_cell(old(self)@, x as int, y as int, false),
    {
        let k: usize = (x / 32) as usize;
        let w: u32 = self.word(k, y);
        let mask: u32 = 1u32 << (x % 32);
        self.putWord(k, y, w & !mask);
        proof {
            assert forall|cx: int, cy: int|
                0 <= cy < self.height && 0 <= cx < self.width implies #[trigger] self@[cy][cx] == with_cell(
                old(self)@,
                x as int,
                y as int,
                false,
            )[cy][cx] by {
                lemma_bit_binary(w, !mask, cx % 32);
                lemma_bit_binary(mask, mask, cx % 32);
                lemma_bit_masks(x % 32, cx % 32);
                assert(old(self)@[cy][cx] == old(self).cell(cx, cy));
                assert(self@[cy][cx] == self.cell(cx, cy));
            }
            lemma_same_cells(self@, with_cell(old(self)@, x as int, y as int, false));
        }
    }

    /// Flips the cell in column `x` of row `y`.
    pub fn flip(&mut self, x: u32, y: u32)
        requires
            old(self).wf(),
            x < old(self)@[0].len(),
            y < old(self)@.len(),
        ensures
            final(self).wf(),
            final(self)@ == with_cell(
                old(self)@,
                x as int,
                y as int,
                !old(self)@[y as int][x as int],
            ),
    {
        let k: usize = (x / 32) as usize;
        let w: u32 = self.word(k, y);
        let mask: u32 = 1u32 << (x % 32);
        self.putWord(k, y, w ^ mask);
        proof {
            assert forall|cx: int, cy: int|
                0 <= cy < self.height && 0 <= cx < self.width implies #[trigger] self@[cy][cx] == with_cell(
                old(self)@,
                x as int,
                y as int,
                !old(self)@[y as int][x as int],
            )[cy][cx] by {
                lemma_bit_binary(w, mask, cx % 32);
                lemma_bit_masks(x % 32, cx % 32);
                assert(old(self)@[cy][cx] == old(self).cell(cx, cy));
                assert(self@[cy][cx] == self.cell(cx, cy));
            }
            lemma_same_cells(
                self@,
                with_cell(old(self)@, x as int, y as int, !old(self)@[y as int][x as int]),
            );
        }
    }

    /// Flips every cell.
    pub fn flip_all(&mut self)
        requires
            old(self).wf(),
        ensures
            final(self).wf(),
            final(self)@ == Seq::new(
                old(self)@.len(),
                |y: int| Seq::new(old(self)@[0].len(), |x: int| !old(self)@[y][x]),
            ),
    {
        let max: usize = self.bits.len();
        let mut i: usize = 0;
        while i < max
            invariant
                self.width == old(self).width,
                self.height == old(self).height,
                self.rowSize == old(self).rowSize,
                self.bits@.len() == max,
                max == old(self).bits@.len(),
                i <= max,
                forall|k: int| 0 <= k < i ==> self.bits@[k] == !old(self).bits@[k],
                forall|k: int| i <= k < max ==> self.bits@[k] == old(self).bits@[k],
            decreases max - i,
        {
            let w: u32 = self.bits[i];
            self.bits[i] = !w;
            i += 1;
        }
        proof {
            assert forall|x: int, y: int|
                0 <= y < self.height && 0 <= x < self.width implies #[trigger] self@[y][x]
                == !old(self)@[y][x] by {
                lemma_offset_bound(y, x / 32, self.rowSize as int, self.height as int);
                lemma_bit_binary(old(self).bits@[y * self.rowSize + x / 32], 0, x % 32);
            }
            lemma_same_cells(
                self@,
                Seq::new(
                    old(self)@.len(),
                    |y: int| Seq::new(old(self)@[0].len(), |x: int| !old(self)@[y][x]),
                ),
            );
        }
    }

    /// Clears every cell.
    pub fn clear(&mut self)
        requires
            old(self).wf(),
        ensures
            final(self).wf(),
            final(self)@ == uniform(old(self)@[0].len(), old(self)@.len(), false),
    {
        let max: usize = self.bits.len();
        let mut i: usize = 0;
        while i < max
            invariant
                self.width == old(self).width,
                self.height == old(self).height,
                self.rowSize == old(self).rowSize,
                self.bits@.len() == max,
                max == old(self).bits@.len(),
                i <= max,
                forall|k: int| 0 <= k < i ==> self.bits@[k] == 0u32,
            decreases max - i,
        {
            self.bits[i] = 0;
            i += 1;
        }
        proof {
            assert forall|x: int, y: int|
                0 <= y < self.height && 0 <= x < self.width implies !#[trigger] self@[y][x] by {
                lemma_offset_bound(y, x / 32, self.rowSize as int, self.height as int);
                lemma_bit_constants(x % 32);
            }
            lemma_same_cells(self@, uniform(old(self)@[0].len(), old(self)@.len(), false));
        }
    }

    /// Flips each cell where the cell of `mask` at the same place is set.
    pub fn xor(&mut self, mask: &BitMatrix) -> (r: Result<(), IllegalArgumentException>)
        requires
            old(self).wf(),
            mask.wf(),
        ensures
            final(self).wf(),
            r.is_err() <==> (old(self)@.len() != mask@.len() || old(self)@[0].len()
                != mask@[0].len()),
            r.is_err() ==> r == Err::<(), IllegalArgumentException>(
                IllegalArgumentException::MatrixDimensionsDontMatch,
            ) && final(self)@ == old(self)@,
            r.is_ok() ==> final(self)@ == xored(old(self)@, mask@),
    {
        if self.width != mask.width || self.height != mask.height || self.rowSize != mask.rowSize {
            return Err(IllegalArgumentException::MatrixDimensionsDontMatch);
        }
        let max: usize = self.bits.len();
        let mut i: usize = 0;
        while i < max
            invariant
                self.width == old(self).width,
                self.height == old(self).height,
                self.rowSize == old(self).rowSize,
                self.bits@.len() == max,
                max == old(self).bits@.len(),
                max == mask.bits@.len(),
                i <= max,
                forall|k: int| 0 <= k < i ==> self.bits@[k] == old(self).bits@[k] ^ mask.bits@[k],
                forall|k: int| i <= k < max ==> self.bits@[k] == old(self).bits@[k],
            decreases max - i,
        {
            let w: u32 = self.bits[i];
            self.bits[i] = w ^ mask.bits[i];
            i += 1;
        }
        proof {
            assert forall|x: int, y: int|
                0 <= y < self.height && 0 <= x < self.width implies #[trigger] self@[y][x] == xored(
                old(self)@,
                mask@,
            )[y][x] by {
                lemma_offset_bound(y, x / 32, self.rowSize as int, self.height as int);
                let o = y * self.rowSize + x / 32;
                lemma_bit_binary(old(self).bits@[o], mask.bits@[o], x % 32);
            }
            lemma_same_cells(self@, xored(old(self)@, mask@));
        }
        Ok(())
    }

    /// Sets the cells of a region that is `width` columns wide from column
    /// `left` on and `height` rows high from row `top` on.
    pub fn setRegion(&mut self, left: u32, top: u32, width: u32, height: u32) -> (r: Result<
        (),
        IllegalArgumentException,
    >)
        requires
            old(self).wf(),
        ensures
            final(self).wf(),
            (height < 1 || width < 1) ==> r == Err::<(), IllegalArgumentException>(
                IllegalArgumentException::RegionEmpty,
            ),
            height >= 1 && width >= 1 && (top + height > old(self)@.len() || left + width > old(
                self,
            )@[0].len()) ==> r == Err::<(), IllegalArgumentException>(
                IllegalArgumentException::RegionOutOfBounds,
            ),
            height >= 1 && width >= 1 && top + height <= old(self)@.len() && left + width <= old(
                self,
            )@[0].len() ==> r.is_ok(),
            r.is_err() ==> final(self)@ == old(self)@,
            r.is_ok() ==> final(self)@ == with_region(
                old(self)@,
                left as int,
                top as int,
                left + width,
                top + height,
            ),
    {
        if height < 1 || width < 1 {
            return Err(IllegalArgumentException::RegionEmpty);
        }
        if height > self.height || top > self.height - height || width > self.width || left
            > self.width - width {
            return Err(IllegalArgumentException::RegionOutOfBounds);
        }
        let right: u32 = left + width;
        let bottom: u32 = top + height;
        let mut y: u32 = top;
        while y < bottom
            invariant
                self.wf(),
                self@.len() == old(self)@.len(),
                self@[0].len() == old(self)@[0].len(),
                left < right <= self@[0].len(),
                top <= y <= bottom <= self@.len(),
                forall|cx: int, cy: int|
                    0 <= cy < self@.len() && 0 <= cx < self@[0].len() ==> #[trigger] self@[cy][cx]
                        == ((left <= cx < right && top <= cy < y) || old(self)@[cy][cx]),
            decreases bottom - y,
        {
            let mut x: u32 = left;
            while x < right
                invariant
                    self.wf(),
                    self@.len() == old(self)@.len(),
                    self@[0].len() == old(self)@[0].len(),
                    left <= x <= right <= self@[0].len(),
                    top <= y < bottom <= self@.len(),
                    forall|cx: int, cy: int|
                        0 <= cy < self@.len() && 0 <= cx < self@[0].len()
                            ==> #[trigger] self@[cy][cx] == ((left <= cx < right && (top <= cy < y
                            || (cy == y && cx < x))) || old(self)@[cy][cx]),
                decreases right - x,
            {
                self.set(x, y);
                x += 1;
            }
            y += 1;
        }
        proof {
            lemma_same_cells(
                self@,
                with_region(old(self)@, left as int, top as int, right as int, bottom as int),
            );
        }
        Ok(())
    }

    /// Row `y` as a bit array. `row` is reused where it has room for the row,
    /// and is replaced by an array as long as the row where it has not. The
    /// words of the row are copied whole, so bits of the result behind the
    /// width are those of the row's last word.
    pub fn getRow(&self, y: u32, row: BitArray) -> (r: BitArray)
        requires
            self.wf(),
            row.wf(),
            y < self@.len(),
        ensures
            r.wf(),
            r.words().len() >= self.spec_row_size(),
            r.spec_size() == r@.len(),
            r@.len() == (if row@.len() < self@[0].len() {
                self@[0].len()
            } else {
                row@.len()
            }),
            forall|x: int| 0 <= x < self@[0].len() ==> r@[x] == self@[y as int][x],
            forall|x: int|
                0 <= x < r@.len() ==> r@[x] == (x < 32 * self.spec_row_size() && self.cell(
                    x,
                    y as int,
                )),
    {
        let mut rw: BitArray = if row.getSize() < self.width as usize {
            BitArray::with_size(self.width as usize)
        } else {
            let mut cleared = row;
            cleared.clear();
            cleared
        };
        let ghost fresh = rw;
        assert(self@[0].len() == self.spec_width());
        assert(fresh@ == Seq::new(fresh.spec_size(), |j: int| false));
        let mut x: usize = 0;
        while x < self.rowSize
            invariant
                self.wf(),
                rw.wf(),
                y < self.spec_height(),
                x <= self.spec_row_size(),
                rw.spec_size() == fresh.spec_size(),
                rw.spec_size() >= self.spec_width(),
                fresh@ == Seq::new(fresh.spec_size(), |j: int| false),
                rw.words().len() == fresh.words().len(),
                forall|k: int|
                    0 <= k < x ==> rw.words()[k] == self.words()[y * self.spec_row_size() + k],
                forall|k: int| x <= k < rw.words().len() ==> rw.words()[k] == fresh.words()[k],
            decreases self.rowSize - x,
        {
            let w: u32 = self.word(x, y);
            rw.setBulk(x * 32, w);
            x += 1;
        }
        proof {
            assert forall|x: int| 0 <= x < rw@.len() implies rw@[x] == (x < 32
                * self.spec_row_size() && self.cell(x, y as int)) by {
                if x >= 32 * self.spec_row_size() {
                    assert(!fresh@[x]);
                    lemma_bit_constants(x % 32);
                } else {
                    lemma_offset_bound(
                        y as int,
                        x / 32,
                        self.spec_row_size() as int,
                        self.spec_height() as int,
                    );
                }
            }
        }
        rw
    }

    /// Replaces row `y` by the first bits that the words of `row` pack.
    pub fn setRow(&mut self, y: u32, row: &BitArray)
        requires
            old(self).wf(),
            y < old(self)@.len(),
            row.words().len() >= old(self).spec_row_size(),
        ensures
            final(self).wf(),
            final(self).spec_width() == old(self).spec_width(),
            final(self).spec_height() == old(self).spec_height(),
            final(self).spec_row_size() == old(self).spec_row_size(),
            final(self)@ == old(self)@.update(
                y as int,
                bits_of(row.words(), old(self)@[0].len()),
            ),
    {
        let words: Vec<u32> = row.getBitArray();
        let mut k: usize = 0;
        while k < self.rowSize
            invariant
                self.wf(),
                self.spec_width() == old(self).spec_width(),
                self.spec_height() == old(self).spec_height(),
                self.spec_row_size() == old(self).spec_row_size(),
                y < self.spec_height(),
                k <= self.spec_row_size(),
                words@ == row.words(),
                words@.len() >= self.spec_row_size(),
                forall|cx: int, cy: int|
                    0 <= cy < self.spec_height() && 0 <= cx < 32 * self.spec_row_size()
                        ==> #[trigger] self.cell(cx, cy) == (if cy == y && cx / 32 < k {
                        word_bit(words@, cx)
                    } else {
                        old(self).cell(cx, cy)
                    }),
            decreases self.rowSize - k,
        {
            let w: u32 = words[k];
            self.putWord(k, y, w);
            k += 1;
        }
        proof {
            let target = old(self)@.update(y as int, bits_of(row.words(), old(self)@[0].len()));
            assert forall|cx: int, cy: int|
                0 <= cy < self@.len() && 0 <= cx < self@[cy].len() implies #[trigger] self@[cy][cx]
                == target[cy][cx] by {
                assert(self@[cy][cx] == self.cell(cx, cy));
                assert(old(self)@[cy][cx] == old(self).cell(cx, cy));
            }
            lemma_same_cells(self@, target);
        }
    }

    /// Turns the matrix counterclockwise by `degrees`, which is a multiple of
    /// 90. A quarter turn swaps width and height; it fails, and leaves the
    /// matrix as it is, where the words of the turned matrix cannot be
    /// counted in a `usize`.
    pub fn rotate(&mut self, degrees: u32) -> (r: Result<(), IllegalArgumentException>)
        requires
            old(self).wf(),
        ensures
            final(self).wf(),
            ({
                let turn = degrees % 360;
                let quarter = turn == 90 || turn == 270;
                let half = turn == 0 || turn == 180;
                &&& !quarter && !half ==> r == Err::<(), IllegalArgumentException>(
                    IllegalArgumentException::BadRotation,
                )
                &&& quarter && !quarter_turn_fits(old(self)@) ==> r == Err::<
                    (),
                    IllegalArgumentException,
                >(IllegalArgumentException::DimensionsTooLarge)
                &&& half || (quarter && quarter_turn_fits(old(self)@)) ==> r is Ok
            }),
            r is Err ==> final(self)@ == old(self)@,
            r is Ok ==> final(self)@ == rotated(old(self)@, degrees as int),
            r is Ok && (degrees % 360 == 90 || degrees % 360 == 270) ==> quarter_turn_fits(
                final(self)@,
            ),
    {
        let turn: u32 = degrees % 360;
        if turn == 0 {
            Ok(())
        } else if turn == 90 {
            self.rotate90()
        } else if turn == 180 {
            self.rotate180();
            Ok(())
        } else if turn == 270 {
            self.rotateThreeQuarters()
        } else {
            Err(IllegalArgumentException::BadRotation)
        }
    }

    /// Turns the matrix by 270 degrees counterclockwise: by a quarter and
    /// then by a half.
    fn rotateThreeQuarters(&mut self) -> (r: Result<(), IllegalArgumentException>)
        requires
            old(self).wf(),
        ensures
            final(self).wf(),
            r is Err <==> !quarter_turn_fits(old(self)@),
            r is Err ==> r == Err::<(), IllegalArgumentException>(
                IllegalArgumentException::DimensionsTooLarge,
            ) && final(self)@ == old(self)@,
            r is Ok ==> final(self)@ == rotated180(rotated90(old(self)@)),
            r is Ok ==> quarter_turn_fits(final(self)@),
    {
        proof {
            lemma_turned_back_fits(self@, self.spec_row_size(), self.words().len());
        }
        match self.rotate90() {
            Ok(()) => {
                self.rotate180();
                Ok(())
            },
            Err(e) => Err(e),
        }
    }

    /// Turns the matrix by 180 degrees.
    pub fn rotate180(&mut self)
        requires
            old(self).wf(),
        ensures
            final(self).wf(),
            final(self)@ == rotated180(old(self)@),
    {
        let mut topRow: BitArray = BitArray::with_size(self.width as usize);
        let mut bottomRow: BitArray = BitArray::with_size(self.width as usize);
        let maxHeight: u32 = self.height / 2 + self.height % 2;
        let mut i: u32 = 0;
        while i < maxHeight
            invariant
                self.wf(),
                self@.len() == old(self)@.len(),
                self@[0].len() == old(self)@[0].len(),
                maxHeight == (self@.len() + 1) / 2,
                i <= maxHeight,
                topRow.wf(),
                bottomRow.wf(),
                topRow.spec_size() == self.spec_width(),
                bottomRow.spec_size() == self.spec_width(),
                self@[0].len() == self.spec_width(),
                forall|y: int|
                    0 <= y < self@.len() ==> #[trigger] self@[y] == (if y < i || y > self@.len()
                        - 1 - i {
                        old(self)@[self@.len() - 1 - y].reverse()
                    } else {
                        old(self)@[y]
                    }),
            decreases maxHeight - i,
        {
            let ghost before = self@;
            topRow = self.getRow(i, topRow);
            let bottomRowIndex: u32 = self.height - 1 - i;
            bottomRow = self.getRow(bottomRowIndex, bottomRow);
            assert(topRow@ =~= before[i as int]);
            assert(bottomRow@ =~= before[bottomRowIndex as int]);
            topRow.reverse();
            bottomRow.reverse();
            self.setRow(i, &bottomRow);
            self.setRow(bottomRowIndex, &topRow);
            proof {
                assert(bits_of(bottomRow.words(), self@[0].len()) =~= bottomRow@);
                assert(bits_of(topRow.words(), self@[0].len()) =~= topRow@);
            }
            i += 1;
        }
        proof {
            assert forall|x: int, y: int|
                0 <= y < self@.len() && 0 <= x < self@[y].len() implies #[trigger] self@[y][x]
                == rotated180(old(self)@)[y][x] by {
                assert(self@[y] == old(self)@[self@.len() - 1 - y].reverse());
            }
            lemma_same_cells(self@, rotated180(old(self)@));
        }
    }

    /// Turns the matrix by 90 degrees counterclockwise. This fails, and
    /// leaves the matrix as it is, where the words of the turned matrix
    /// cannot be counted in a `usize`.
    pub fn rotate90(&mut self) -> (r: Result<(), IllegalArgumentException>)
        requires
            old(self).wf(),
        ensures
            final(self).wf(),
            r is Err <==> !quarter_turn_fits(old(self)@),
            r is Err ==> r == Err::<(), IllegalArgumentException>(
                IllegalArgumentException::DimensionsTooLarge,
            ) && final(self)@ == old(self)@,
            r is Ok ==> final(self)@ == rotated90(old(self)@),
            r is Ok ==> quarter_turn_fits(final(self)@),
    {
        proof {
            lemma_turned_back_fits(self@, self.spec_row_size(), self.words().len());
        }
        let newWidth: u32 = self.height;
        let newHeight: u32 = self.width;
        let mut turned: BitMatrix = match BitMatrix::new(newWidth, newHeight) {
            Ok(m) => m,
            Err(e) => {
                return Err(e);
            },
        };
        let mut y: u32 = 0;
        while y < self.height
            invariant
                self.wf(),
                turned.wf(),
                newWidth == self.spec_height(),
                newHeight == self.spec_width(),
                turned@.len() == newHeight,
                turned@[0].len() == newWidth,
                y <= self.spec_height(),
                forall|c: int, r: int|
                    0 <= r < newHeight && 0 <= c < newWidth ==> #[trigger] turned@[r][c] == (c < y
                        && self@[c][newHeight - 1 - r]),
            decreases self.height - y,
        {
            let mut x: u32 = 0;
            while x < self.width
                invariant
                    self.wf(),
                    turned.wf(),
                    newWidth == self.spec_height(),
                    newHeight == self.spec_width(),
                    turned@.len() == newHeight,
                    turned@[0].len() == newWidth,
                    y < self.spec_height(),
                    x <= self.spec_width(),
                    forall|c: int, r: int|
                        0 <= r < newHeight && 0 <= c < newWidth ==> #[trigger] turned@[r][c] == ((c
                            < y || (c == y && newHeight - 1 - r < x)) && self@[c][newHeight - 1
                            - r]),
                decreases self.width - x,
            {
                if self.get(x, y) {
                    turned.set(y, newHeight - 1 - x);
                }
                x += 1;
            }
            y += 1;
        }
        proof {
            lemma_same_cells(turned@, rotated90(self@));
        }
        *self = turned;
        Ok(())
    }

    /// The columns of the first and of the last set cell of row `y`; nothing
    /// where no cell of the row is set.
    fn rowExtent(&self, y: u32) -> (r: Option<(u32, u32)>)
        requires
            self.wf(),
            y < self.spec_height(),
        ensures
            r is None <==> forall|x: int|
                0 <= x < self.spec_width() ==> !#[trigger] self@[y as int][x],
            r is Some ==> r->Some_0.0 <= r->Some_0.1 < self.spec_width()
                && self@[y as int][r->Some_0.0 as int] && self@[y as int][r->Some_0.1 as int],
            r is Some ==> forall|x: int|
                0 <= x < self.spec_width() && #[trigger] self@[y as int][x] ==> r->Some_0.0 <= x
                    <= r->Some_0.1,
    {
        let mut found: bool = false;
        let mut left: u32 = 0;
        let mut right: u32 = 0;
        let mut x32: usize = 0;
        while x32 < self.rowSize
            invariant
                self.wf(),
                y < self.spec_height(),
                x32 <= self.spec_row_size(),
                forall|x: int|
                    0 <= x < self.spec_width() && x < 32 * x32 && #[trigger] self@[y as int][x]
                        ==> found && left <= x <= right,
                found ==> left <= right < self.spec_width() && self@[y as int][left as int]
                    && self@[y as int][right as int] && right < 32 * x32,
            decreases self.rowSize - x32,
        {
            let theBits: u32 = self.cellsWord(x32, y);
            if theBits != 0 {
                let low: u32 = (x32 as u32) * 32 + lowest_set_bit(theBits);
                let high: u32 = (x32 as u32) * 32 + highest_set_bit(theBits);
                assert(self@[y as int][low as int]);
                assert(self@[y as int][high as int]);
                if !found {
                    found = true;
                    left = low;
                }
                right = high;
            }
            x32 += 1;
        }
        if found {
            Some((left, right))
        } else {
            None
        }
    }

    /// The smallest rectangle that holds every set cell, as left, top,
    /// width and height; nothing where no cell is set.
    pub fn getEnclosingRectangle(&self) -> (r: Option<Vec<u32>>)
        requires
            self.wf(),
        ensures
            r.is_none() <==> all_clear(self@),
            r.is_some() ==> r.unwrap()@.len() == 4 && encloses(
                self@,
                r.unwrap()@[0] as int,
                r.unwrap()@[1] as int,
                r.unwrap()@[2] as int,
                r.unwrap()@[3] as int,
            ),
    {
        let mut found: bool = false;
        let mut left: u32 = 0;
        let mut top: u32 = 0;
        let mut right: u32 = 0;
        let mut bottom: u32 = 0;
        let ghost mut left_row: int = 0;
        let ghost mut right_row: int = 0;
        let ghost mut top_column: int = 0;
        let ghost mut bottom_column: int = 0;
        assert(self@[0].len() == self.spec_width());
        let mut y: u32 = 0;
        while y < self.height
            invariant
                self.wf(),
                y <= self.spec_height(),
                forall|cx: int, cy: int|
                    0 <= cy < y && 0 <= cx < self.spec_width() && #[trigger] self@[cy][cx] ==> found
                        && left <= cx <= right && top <= cy <= bottom,
                found ==> left <= right < self.spec_width() && top <= bottom < y,
                found ==> 0 <= left_row < y && self@[left_row][left as int],
                found ==> 0 <= right_row < y && self@[right_row][right as int],
                found ==> 0 <= top_column < self.spec_width() && self@[top as int][top_column],
                found ==> 0 <= bottom_column < self.spec_width()
                    && self@[bottom as int][bottom_column],
            decreases self.height - y,
        {
            match self.rowExtent(y) {
                Some((low, high)) => {
                    if !found {
                        found = true;
                        left = low;
                        right = high;
                        top = y;
                        proof {
                            left_row = y as int;
                            right_row = y as int;
                            top_column = low as int;
                        }
                    } else {
                        if low < left {
                            left = low;
                            proof {
                                left_row = y as int;
                            }
                        }
                        if high > right {
                            right = high;
                            proof {
                                right_row = y as int;
                            }
                        }
                    }
                    bottom = y;
                    proof {
                        bottom_column = low as int;
                    }
                },
                None => {},
            }
            y += 1;
        }
        if !found {
            return None;
        }
        let width: u32 = right - left + 1;
        let height: u32 = bottom - top + 1;
        let r = vec![left, top, width, height];
        proof {
            assert(self@[left_row][left as int]);
            assert(self@[right_row][left + width - 1]);
            assert(self@[top as int][top_column]);
            assert(self@[top + height - 1][bottom_column]);
        }
        Some(r)
    }

    /// Column and row of the first set cell, read row by row from the top;
    /// nothing where no cell is set.
    pub fn getTopLeftOnBit(&self) -> (r: Option<Vec<u32>>)
        requires
            self.wf(),
        ensures
            r.is_none() <==> all_clear(self@),
            r.is_some() ==> r.unwrap()@.len() == 2 && first_set_cell(
                self@,
                r.unwrap()@[0] as int,
                r.unwrap()@[1] as int,
            ),
    {
        assert(self@[0].len() == self.spec_width());
        let mut y: u32 = 0;
        while y < self.height
            invariant
                self.wf(),
                y <= self.spec_height(),
                forall|cx: int, cy: int|
                    0 <= cy < y && 0 <= cx < self.spec_width() ==> !#[trigger] self@[cy][cx],
            decreases self.height - y,
        {
            let mut k: usize = 0;
            while k < self.rowSize
                invariant
                    self.wf(),
                    y < self.spec_height(),
                    k <= self.spec_row_size(),
                    forall|cx: int, cy: int|
                        0 <= cy <= y && 0 <= cx < self.spec_width() && (cy < y || cx < 32 * k)
                            ==> !#[trigger] self@[cy][cx],
                decreases self.rowSize - k,
            {
                let theBits: u32 = self.cellsWord(k, y);
                if theBits != 0 {
                    let x: u32 = (k as u32) * 32 + lowest_set_bit(theBits);
                    let r = vec![x, y];
                    assert(self@[y as int][x as int]);
                    assert(first_set_cell(self@, x as int, y as int));
                    return Some(r);
                }
                k += 1;
            }
            y += 1;
        }
        None
    }

    /// Column and row of the last set cell, read row by row from the top;
    /// nothing where no cell is set.
    pub fn getBottomRightOnBit(&self) -> (r: Option<Vec<u32>>)
        requires
            self.wf(),
        ensures
            r.is_none() <==> all_clear(self@),
            r.is_some() ==> r.unwrap()@.len() == 2 && last_set_cell(
                self@,
                r.unwrap()@[0] as int,
                r.unwrap()@[1] as int,
            ),
    {
        assert(self@[0].len() == self.spec_width());
        let mut y: u32 = self.height;
        while y > 0
            invariant
                self.wf(),
                y <= self.spec_height(),
                forall|cx: int, cy: int|
                    y <= cy < self.spec_height() && 0 <= cx < self.spec_width()
                        ==> !#[trigger] self@[cy][cx],
            decreases y,
        {
            y -= 1;
            let mut k: usize = self.rowSize;
            while k > 0
                invariant
                    self.wf(),
                    y < self.spec_height(),
                    k <= self.spec_row_size(),
                    forall|cx: int, cy: int|
                        y <= cy < self.spec_height() && 0 <= cx < self.spec_width() && (cy > y
                            || cx >= 32 * k) ==> !#[trigger] self@[cy][cx],
                decreases k,
            {
                k -= 1;
                let theBits: u32 = self.cellsWord(k, y);
                if theBits != 0 {
                    let x: u32 = (k as u32) * 32 + highest_set_bit(theBits);
                    let r = vec![x, y];
                    assert(self@[y as int][x as int]);
                    assert(last_set_cell(self@, x as int, y as int));
                    return Some(r);
                }
            }
        }
        None
    }

    /// The text of the matrix: `setString` for each set cell and
    /// `unsetString` for each clear one, row by row, with a line feed behind
    /// each row.
    pub fn toString(&self, setString: &str, unsetString: &str) -> (text: String)
        requires
            self.wf(),
        ensures
            text@ == matrix_text(self@, setString@, unsetString@, seq!['\n']),
    {
        proof {
            reveal_strlit("\n");
            assert("\n"@ =~= seq!['\n']);
        }
        self.buildToString(setString, unsetString, "\n")
    }

    /// The text of the matrix, with `lineSeparator` behind each row.
    fn buildToString(&self, setString: &str, unsetString: &str, lineSeparator: &str) -> (text:
        String)
        requires
            self.wf(),
        ensures
            text@ == matrix_text(self@, setString@, unsetString@, lineSeparator@),
    {
        let mut result = String::new();
        assert(self@[0].len() == self.spec_width());
        let mut y: u32 = 0;
        while y < self.height
            invariant
                self.wf(),
                y <= self.spec_height(),
                result@ == matrix_text(
                    self@.subrange(0, y as int),
                    setString@,
                    unsetString@,
                    lineSeparator@,
                ),
            decreases self.height - y,
        {
            let ghost above = result@;
            let mut x: u32 = 0;
            while x < self.width
                invariant
                    self.wf(),
                    y < self.spec_height(),
                    x <= self.spec_width(),
                    result@ == above + row_text(
                        self@[y as int].subrange(0, x as int),
                        setString@,
                        unsetString@,
                    ),
                decreases self.width - x,
            {
                result.push_str(
                    if self.get(x, y) {
                        setString
                    } else {
                        unsetString
                    },
                );
                proof {
                    let now = self@[y as int].subrange(0, x + 1);
                    assert(now.drop_last() =~= self@[y as int].subrange(0, x as int));
                }
                x += 1;
            }
            result.push_str(lineSeparator);
            proof {
                assert(self@[y as int].subrange(0, self.width as int) =~= self@[y as int]);
                let now = self@.subrange(0, y + 1);
                assert(now.drop_last() =~= self@.subrange(0, y as int));
            }
            y += 1;
        }
        assert(self@.subrange(0, self.height as int) =~= self@);
        result
    }

    /// The matrix whose rows are those of `image`, a set cell for each
    /// `true`.
    pub fn parse_bools(image: &Vec<Vec<bool>>) -> (r: Self)
        requires
            1 <= image@.len() <= u32::MAX,
            1 <= image@[0]@.len() <= u32::MAX,
            forall|y: int| 0 <= y < image@.len() ==> (#[trigger] image@[y])@.len() == image@[0]@.len(),
            words_for(image@[0]@.len() as int) * image@.len() <= usize::MAX,
        ensures
            r.wf(),
            r@ == Seq::new(image@.len(), |y: int| image@[y]@),
    {
        let height: u32 = image.len() as u32;
        let width: u32 = image[0].len() as u32;
        let mut bits: BitMatrix = match BitMatrix::new(width, height) {
            Ok(m) => m,
            Err(_) => unreached(),
        };
        let mut i: u32 = 0;
        while i < height
            invariant
                bits.wf(),
                bits@.len() == height,
                bits@[0].len() == width,
                height == image@.len(),
                width == image@[0]@.len(),
                i <= height,
                forall|y: int| 0 <= y < image@.len() ==> (#[trigger] image@[y])@.len() == width,
                forall|x: int, y: int|
                    0 <= y < height && 0 <= x < width ==> #[trigger] bits@[y][x] == (y < i
                        && image@[y]@[x]),
            decreases height - i,
        {
            let imageI: &Vec<bool> = &image[i as usize];
            let mut j: u32 = 0;
            while j < width
                invariant
                    bits.wf(),
                    bits@.len() == height,
                    bits@[0].len() == width,
                    height == image@.len(),
                    width == image@[0]@.len(),
                    i < height,
                    j <= width,
                    imageI@ == image@[i as int]@,
                    imageI@.len() == width,
                    forall|x: int, y: int|
                        0 <= y < height && 0 <= x < width ==> #[trigger] bits@[y][x] == ((y < i
                            || (y == i && x < j)) && image@[y]@[x]),
                decreases width - j,
            {
                if imageI[j as usize] {
                    bits.set(j, i);
                }
                j += 1;
            }
            i += 1;
        }
        proof {
            let target = Seq::new(image@.len(), |y: int| image@[y]@);
            assert forall|y: int| 0 <= y < bits@.len() implies (#[trigger] bits@[y]).len()
                == target[y].len() by {
                assert(image@[y]@.len() == width);
            }
            lemma_same_cells(bits@, target);
        }
        bits
    }

    /// The matrix that `stringRepresentation` stands for, where `setString`
    /// is a set cell and `unsetString` a clear one and each line is a row.
    pub fn parse(stringRepresentation: &str, setString: &str, unsetString: &str) -> (r: Result<
        Self,
        IllegalArgumentException,
    >)
        ensures
            r is Err <==> parsed(stringRepresentation@, setString@, unsetString@) is Err,
            r is Err ==> r->Err_0 == parsed(stringRepresentation@, setString@, unsetString@)->Err_0,
            r is Ok ==> r->Ok_0.wf() && r->Ok_0@ == parsed(
                stringRepresentation@,
                setString@,
                unsetString@,
            )->Ok_0,
    {
        let text: Vec<char> = chars_of(stringRepresentation);
        let set: Vec<char> = chars_of(setString);
        let unset: Vec<char> = chars_of(unsetString);
        let mut bits: Vec<bool> = Vec::new();
        let mut rowStartPos: usize = 0;
        let mut rowLength: Option<usize> = None;
        let mut nRows: usize = 0;
        let mut pos: usize = 0;
        let ghost whole = scan(text@, set@, unset@, 0, Seq::<bool>::empty(), 0, -1, 0);
        while pos < text.len()
            invariant
                pos <= text@.len(),
                text@ == stringRepresentation@,
                set@ == setString@,
                unset@ == unsetString@,
                whole == scan(text@, set@, unset@, 0, Seq::<bool>::empty(), 0, -1, 0),
                rowStartPos <= bits@.len(),
                nRows + bits@.len() <= pos,
                rowLength is None ==> nRows == 0 && rowStartPos == 0,
                rowLength is Some ==> rowLength.unwrap() >= 1 && nRows >= 1 && rowStartPos
                    == nRows * rowLength.unwrap(),
                whole == scan(
                    text@,
                    set@,
                    unset@,
                    pos as int,
                    bits@,
                    rowStartPos as int,
                    match rowLength {
                        Some(l) => l as int,
                        None => -1,
                    },
                    nRows as int,
                ),
            decreases text@.len() - pos,
        {
            let c: char = text[pos];
            if c == '\n' || c == '\r' {
                let bitsPos: usize = bits.len();
                if bitsPos > rowStartPos {
                    match rowLength {
                        None => {
                            rowLength = Some(bitsPos - rowStartPos);
                            proof {
                                lemma_next_row(0, bitsPos - rowStartPos);
                            }
                        },
                        Some(l) => {
                            if bitsPos - rowStartPos != l {
                                assert(whole is Err && whole->Err_0
                                    == IllegalArgumentException::RowLengthsDontMatch);
                                return Err(IllegalArgumentException::RowLengthsDontMatch);
                            }
                            proof {
                                lemma_next_row(nRows as int, l as int);
                            }
                        },
                    }
                    rowStartPos = bitsPos;
                    nRows += 1;
                }
                pos += 1;
            } else if starts_with_at(&text, &set, pos) {
                pos += set.len();
                bits.push(true);
            } else if starts_with_at(&text, &unset, pos) {
                pos += unset.len();
                bits.push(false);
            } else {
                assert(whole is Err && whole->Err_0 == IllegalArgumentException::IllegalCharacter);
                return Err(IllegalArgumentException::IllegalCharacter);
            }
        }
        assert(whole == Ok::<(Seq<bool>, int, int, int), IllegalArgumentException>(
            (
                bits@,
                rowStartPos as int,
                match rowLength {
                    Some(l) => l as int,
                    None => -1,
                },
                nRows as int,
            ),
        ));
        // no line break at the end?
        let bitsPos: usize = bits.len();
        if bitsPos > rowStartPos {
            match rowLength {
                None => {
                    rowLength = Some(bitsPos - rowStartPos);
                    proof {
                        lemma_next_row(0, bitsPos - rowStartPos);
                    }
                },
                Some(l) => {
                    if bitsPos - rowStartPos != l {
                        return Err(IllegalArgumentException::RowLengthsDontMatch);
                    }
                    proof {
                        lemma_next_row(nRows as int, l as int);
                    }
                },
            }
            nRows += 1;
        }
        let width: usize = match rowLength {
            Some(l) => l,
            None => {
                return Err(IllegalArgumentException::DimensionsNotPositive);
            },
        };
        assert(bits@.len() == nRows * width);
        let count: usize = bits.len();
        if width > u32::MAX as usize || nRows > u32::MAX as usize {
            return Err(IllegalArgumentException::DimensionsTooLarge);
        }
        let mut matrix: BitMatrix = match BitMatrix::new(width as u32, nRows as u32) {
            Ok(m) => m,
            Err(e) => {
                return Err(e);
            },
        };
        let mut i: usize = 0;
        let mut y: u32 = 0;
        while y < nRows as u32
            invariant
                matrix.wf(),
                matrix@.len() == nRows,
                matrix@[0].len() == width,
                1 <= width <= u32::MAX,
                nRows <= u32::MAX,
                bits@.len() == nRows * width,
                bits@.len() == count,
                y <= nRows,
                i == y * width,
                forall|cx: int, cy: int|
                    0 <= cy < nRows && 0 <= cx < width ==> #[trigger] matrix@[cy][cx] == (cy < y
                        && bits@[cy * width + cx]),
            decreases nRows - y,
        {
            let mut x: u32 = 0;
            while x < width as u32
                invariant
                    matrix.wf(),
                    matrix@.len() == nRows,
                    matrix@[0].len() == width,
                    1 <= width <= u32::MAX,
                    nRows <= u32::MAX,
                    bits@.len() == nRows * width,
                    bits@.len() == count,
                    y < nRows,
                    x <= width,
                    i == y * width + x,
                    forall|cx: int, cy: int|
                        0 <= cy < nRows && 0 <= cx < width ==> #[trigger] matrix@[cy][cx] == ((cy
                            < y || (cy == y && cx < x)) && bits@[cy * width + cx]),
                decreases width - x,
            {
                proof {
                    lemma_offset_bound(y as int, x as int, width as int, nRows as int);
                    lemma_next_row(nRows as int, width as int);
                }
                if bits[i] {
                    matrix.set(x, y);
                }
                i += 1;
                x += 1;
            }
            proof {
                lemma_next_row(y as int, width as int);
            }
            y += 1;
        }
        proof {
            let target = parsed(stringRepresentation@, setString@, unsetString@)->Ok_0;
            lemma_same_cells(matrix@, target);
        }
        Ok(matrix)
    }

    /// The text of the matrix with `X ` for a set cell and two spaces for a
    /// clear one.
    pub fn display(&self) -> (text: String)
        requires
            self.wf(),
        ensures
            text@ == matrix_text(self@, "X "@, "  "@, seq!['\n']),
    {
        self.toString("X ", "  ")
    }

    /// The cell in column `x` of row `y`, clear where the words do not
    /// reach.
    fn cellAt(&self, x: u32, y: u32) -> (r: bool)
        ensures
            r == self.cell(x as int, y as int),
    {
        let k: usize = (x / 32) as usize;
        let total: usize = self.bits.len();
        let at: usize = match (y as usize).checked_mul(self.rowSize) {
            Some(start) => match start.checked_add(k) {
                Some(at) => at,
                None => {
                    return false;
                },
            },
            None => {
                return false;
            },
        };
        if at >= total {
            return false;
        }
        proof {
            lemma_bit_test(self.bits@[at as int], x % 32);
        }
        (self.bits[at] & (1u32 << (x % 32))) != 0
    }

    /// The number of columns.
    pub fn getWidth(&self) -> (r: u32)
        ensures
            r == self.spec_width(),
            self.wf() ==> r == self@[0].len(),
    {
        self.width
    }

    /// The number of rows.
    pub fn getHeight(&self) -> (r: u32)
        ensures
            r == self.spec_height(),
            r == self@.len(),
    {
        self.height
    }

    /// The number of words that hold one row.
    pub fn getRowSize(&self) -> (r: usize)
        ensures
            r == self.spec_row_size(),
            self.wf() ==> r == words_for(self@[0].len() as int),
    {
        self.rowSize
    }
}

impl Clone for BitMatrix {
    /// A copy with the same cells.
    fn clone(&self) -> (r: Self)
        ensures
            r.words() == self.words(),
            r.spec_width() == self.spec_width(),
            r.spec_height() == self.spec_height(),
            r.spec_row_size() == self.spec_row_size(),
            r@ == self@,
            r.wf() == self.wf(),
    {
        let bits = self.bits.clone();
        assert(bits@ =~= self.bits@);
        BitMatrix::with_all_data(self.width, self.height, self.rowSize, bits)
    }
}

impl PartialEqSpecImpl for BitMatrix {
    open spec fn obeys_eq_spec() -> bool {
        true
    }

    /// Two matrices are equal when they have the same rows of the same
    /// cells.
    open spec fn eq_spec(&self, other: &BitMatrix) -> bool {
        self@ == other@
    }
}

impl PartialEq for BitMatrix {
    /// Whether the two matrices have the same rows of the same cells.
    fn eq(&self, other: &BitMatrix) -> (r: bool) {
        if self.height != other.height {
            assert(self@.len() != other@.len());
            return false;
        }
        if self.height == 0 {
            assert(self@ =~= other@);
            return true;
        }
        if self.width != other.width {
            assert(self@[0].len() != other@[0].len());
            return false;
        }
        let mut y: u32 = 0;
        while y < self.height
            invariant
                self.height == other.height,
                self.width == other.width,
                y <= self.height,
                forall|cx: int, cy: int|
                    0 <= cy < y && 0 <= cx < self.width ==> #[trigger] self@[cy][cx]
                        == other@[cy][cx],
            decreases self.height - y,
        {
            let mut x: u32 = 0;
            while x < self.width
                invariant
                    self.height == other.height,
                    self.width == other.width,
                    y < self.height,
                    x <= self.width,
                    forall|cx: int, cy: int|
                        0 <= cy <= y && 0 <= cx < self.width && (cy < y || cx < x)
                            ==> #[trigger] self@[cy][cx] == other@[cy][cx],
                decreases self.width - x,
            {
                if self.cellAt(x, y) != other.cellAt(x, y) {
                    assert(self@[y as int][x as int] != other@[y as int][x as int]);
                    return false;
                }
                x += 1;
            }
            y += 1;
        }
        proof {
            lemma_same_cells(self@, other@);
        }
        true
    }
}

impl Eq for BitMatrix {

}

} // verus!
