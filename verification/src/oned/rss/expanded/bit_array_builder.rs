//! The bits of a symbol that are handed on to be read as text.

use crate::common::bit_array::{low_bits, BitArray};
use crate::oned::rss::data_character::DataCharacter;
use crate::oned::rss::expanded::expanded_pair::ExpandedPair;
use vstd::prelude::*;

verus! {

/// The twelve bits of the value of a character, most significant first.
pub open spec fn character_bits(c: DataCharacter) -> Seq<bool> {
    low_bits(c.value as u32, 12)
}

/// The bits of the characters of the first `n` pairs, but for the check
/// character, which is the left character of the first pair.
pub open spec fn built_bits(pairs: Seq<ExpandedPair>, n: nat) -> Seq<bool>
    decreases n,
{
    if n == 0 {
        Seq::empty()
    } else if n == 1 {
        match pairs[0].right_char {
            Some(c) => character_bits(c),
            None => Seq::empty(),
        }
    } else {
        let before = built_bits(pairs, (n - 1) as nat);
        let with_left = match pairs[n - 1].left_char {
            Some(c) => before + character_bits(c),
            None => before,
        };
        match pairs[n - 1].right_char {
            Some(c) => with_left + character_bits(c),
            None => with_left,
        }
    }
}

/// The bits of a symbol: twelve bits for each character of the pairs, in
/// order, but for the check character. A character that is missing gives no
/// bits.
pub fn buildBitArray(pairs: &Vec<ExpandedPair>) -> (binary: BitArray)
    requires
        24 * pairs@.len() + 32 <= usize::MAX,
    ensures
        binary.wf(),
        binary@ == built_bits(pairs@, pairs@.len()),
{
    let mut binary = BitArray::new();
    if pairs.len() == 0 {
        return binary;
    }
    let firstPair: ExpandedPair = pairs[0];
    match firstPair.getRightChar() {
        Some(c) => {
            let appended = binary.appendBits(c.getValue() as u32, 12);
            assert(appended is Ok);
            assert(binary@ =~= character_bits(c));
        },
        None => {},
    }
    let mut i: usize = 1;
    while i < pairs.len()
        invariant
            1 <= i <= pairs@.len(),
            24 * pairs@.len() + 32 <= usize::MAX,
            binary.wf(),
            binary@ == built_bits(pairs@, i as nat),
            binary@.len() <= 24 * i,
        decreases pairs@.len() - i,
    {
        let currentPair: ExpandedPair = pairs[i];
        match currentPair.getLeftChar() {
            Some(c) => {
                let appended = binary.appendBits(c.getValue() as u32, 12);
                assert(appended is Ok);
            },
            None => {},
        }
        match currentPair.getRightChar() {
            Some(c) => {
                let appended = binary.appendBits(c.getValue() as u32, 12);
                assert(appended is Ok);
            },
            None => {},
        }
        i += 1;
    }
    binary
}

} // verus!
