//! The tables of the RSS Expanded symbology.

use vstd::prelude::*;

verus! {

/// For each of the five groups of characters, the widest odd element.
pub const SYMBOL_WIDEST: [u32; 5] = [7, 5, 4, 3, 1];

/// For each group, the number of even-element patterns.
pub const EVEN_TOTAL_SUBSET: [u32; 5] = [4, 20, 52, 104, 204];

/// For each group, the number of characters in the groups before it.
pub const GSUM: [u32; 5] = [0, 348, 1388, 2948, 3988];

/// The checksum weights: for each finder pattern position and side of it a
/// row of eight weights, one for each element of a data character.
pub const WEIGHTS: [[u32; 8]; 23] = [
    [1, 3, 9, 27, 81, 32, 96, 77],
    [20, 60, 180, 118, 143, 7, 21, 63],
    [189, 145, 13, 39, 117, 140, 209, 205],
    [193, 157, 49, 147, 19, 57, 171, 91],
    [62, 186, 136, 197, 169, 85, 44, 132],
    [185, 133, 188, 142, 4, 12, 36, 108],
    [113, 128, 173, 97, 80, 29, 87, 50],
    [150, 28, 84, 41, 123, 158, 52, 156],
    [46, 138, 203, 187, 139, 206, 196, 166],
    [76, 17, 51, 153, 37, 111, 122, 155],
    [43, 129, 176, 106, 107, 110, 119, 146],
    [16, 48, 144, 10, 30, 90, 59, 177],
    [109, 116, 137, 200, 178, 112, 125, 164],
    [70, 210, 208, 202, 184, 130, 179, 115],
    [134, 191, 151, 31, 93, 68, 204, 190],
    [148, 22, 66, 198, 172, 94, 71, 2],
    [6, 18, 54, 162, 64, 192, 154, 40],
    [120, 149, 25, 75, 14, 42, 126, 167],
    [79, 26, 78, 23, 69, 207, 199, 175],
    [103, 98, 83, 38, 114, 131, 182, 124],
    [161, 61, 183, 127, 170, 88, 53, 159],
    [55, 165, 73, 8, 24, 72, 5, 15],
    [45, 135, 194, 160, 58, 174, 100, 89],
];

/// Weight `column` of row `row` of the checksum weights.
pub open spec fn weight(row: int, column: int) -> int {
    WEIGHTS[row][column] as int
}

/// Weight `column` of row `row` of the checksum weights.
pub fn weightAt(row: usize, column: usize) -> (w: u32)
    requires
        row < 23,
        column < 8,
    ensures
        w == weight(row as int, column as int),
        w <= 210,
{
    WEIGHTS[row][column]
}

/// The orders in which the finder patterns A to F (0 to 5) follow each other
/// in a symbol, for symbols of 2 to 11 pairs; each order is filled up to 11
/// places.
pub const FINDER_PATTERN_SEQUENCES: [[u32; 11]; 10] = [
    [0, 0, 0, 0, 0, 0, 0, 0, 0, 0, 0],
    [0, 1, 1, 0, 0, 0, 0, 0, 0, 0, 0],
    [0, 2, 1, 3, 0, 0, 0, 0, 0, 0, 0],
    [0, 4, 1, 3, 2, 0, 0, 0, 0, 0, 0],
    [0, 4, 1, 3, 3, 5, 0, 0, 0, 0, 0],
    [0, 4, 1, 3, 4, 5, 5, 0, 0, 0, 0],
    [0, 0, 1, 1, 2, 2, 3, 3, 0, 0, 0],
    [0, 0, 1, 1, 2, 2, 3, 4, 4, 0, 0],
    [0, 0, 1, 1, 2, 2, 3, 4, 5, 5, 0],
    [0, 0, 1, 1, 2, 3, 3, 4, 4, 5, 5],
];

/// The number of pairs of each of the orders of finder patterns.
pub const FINDER_PATTERN_SEQUENCE_LENGTHS: [usize; 10] = [2, 3, 4, 5, 6, 7, 8, 9, 10, 11];

/// The order in which the finder patterns follow each other in a symbol of
/// `k + 2` pairs.
pub open spec fn finder_sequence(k: int) -> Seq<int> {
    Seq::new(
        FINDER_PATTERN_SEQUENCE_LENGTHS[k] as nat,
        |j: int| FINDER_PATTERN_SEQUENCES[k][j] as int,
    )
}

} // verus!
