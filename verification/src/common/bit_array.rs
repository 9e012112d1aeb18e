//! A growable array of bits, packed into 32-bit words.

use crate::common::word::{
    bit, byte_bit, lemma_bit_binary, lemma_bit_constants, lemma_bit_masks, lemma_bit_shift,
    lemma_bit_test, lemma_byte_set, lemma_word_extensional, lemma_word_zero, lowest_set_bit,
    range_mask, reverse_word,
};
use crate::exceptions::IllegalArgumentException;
use vstd::prelude::*;
use vstd::std_specs::cmp::PartialEqSpecImpl;

verus! {

/// The first `size` bits that `words` pack: bit `i` is bit `i % 32` of word
/// `i / 32`.
pub open spec fn bits_of(words: Seq<u32>, size: nat) -> Seq<bool> {
    Seq::new(size, |i: int| word_bit(words, i))
}

/// Bit `i` of the bits that `words` pack. A bit behind the last word reads
/// as clear.
pub open spec fn word_bit(words: Seq<u32>, i: int) -> bool {
    0 <= i && i / 32 < words.len() && bit(words[i / 32], i % 32)
}

/// Index of the first bit of `bits` at or after `from` that equals `value`,
/// or the length of `bits` where there is none.
pub open spec fn next_equal(bits: Seq<bool>, from: int, value: bool) -> int
    decreases bits.len() - from,
{
    if from >= bits.len() {
        bits.len() as int
    } else if from >= 0 && bits[from] == value {
        from
    } else {
        next_equal(bits, from + 1, value)
    }
}

/// Index of the first set bit of `bits` at or after `from`, or the length of
/// `bits` where there is none.
pub open spec fn next_set(bits: Seq<bool>, from: int) -> int {
    next_equal(bits, from, true)
}

/// Index of the first clear bit of `bits` at or after `from`, or the length
/// of `bits` where there is none.
pub open spec fn next_unset(bits: Seq<bool>, from: int) -> int {
    next_equal(bits, from, false)
}

/// `next_equal` finds the first bit with the value and nothing before it.
pub proof fn lemma_next_equal(bits: Seq<bool>, from: int, value: bool)
    requires
        0 <= from,
    ensures
        from <= bits.len() ==> from <= next_equal(bits, from, value) <= bits.len(),
        from >= bits.len() ==> next_equal(bits, from, value) == bits.len(),
        forall|j: int| from <= j < next_equal(bits, from, value) ==> bits[j] != value,
        next_equal(bits, from, value) < bits.len() ==> bits[next_equal(bits, from, value)]
            == value,
    decreases bits.len() - from,
{
    if from < bits.len() && bits[from] != value {
        lemma_next_equal(bits, from + 1, value);
    }
}

/// An index with the value before which, from `from` on, no bit has it is
/// what `next_equal` finds.
pub proof fn lemma_next_equal_is(bits: Seq<bool>, from: int, value: bool, r: int)
    requires
        0 <= from <= r <= bits.len(),
        forall|j: int| from <= j < r ==> bits[j] != value,
        r < bits.len() ==> bits[r] == value,
    ensures
        next_equal(bits, from, value) == r,
    decreases r - from,
{
    if from < r {
        lemma_next_equal_is(bits, from + 1, value, r);
    }
}

/// Words whose first `size` bits are those of `before` read backwards pack
/// the reverse of what `before` packs.
pub proof fn lemma_reversed(before: Seq<u32>, after: Seq<u32>, size: nat)
    requires
        forall|j: int| 0 <= j < size ==> #[trigger] word_bit(after, j) == word_bit(
            before,
            size - 1 - j,
        ),
    ensures
        bits_of(after, size) == bits_of(before, size).reverse(),
{
    assert(bits_of(after, size) =~= bits_of(before, size).reverse());
}

/// `bits` with every bit from `start` to `end`, `end` excluded, set.
pub open spec fn with_range_set(bits: Seq<bool>, start: int, end: int) -> Seq<bool> {
    Seq::new(bits.len(), |j: int| (start <= j < end) || bits[j])
}

/// Whether every bit of `bits` from `start` to `end`, `end` excluded, equals
/// `value`.
pub open spec fn range_is(bits: Seq<bool>, start: int, end: int, value: bool) -> bool {
    forall|j: int| start <= j < end ==> bits[j] == value
}

/// The `count` least significant bits of `value`, the most significant of
/// them first.
pub open spec fn low_bits(value: u32, count: nat) -> Seq<bool> {
    Seq::new(count, |t: int| bit(value, count - 1 - t))
}

/// The text of a bit array: `X` for a set bit and `.` for a clear one, with
/// a space before every group of eight.
pub open spec fn bits_text(bits: Seq<bool>) -> Seq<char>
    decreases bits.len(),
{
    if bits.len() == 0 {
        Seq::empty()
    } else {
        let head = bits_text(bits.drop_last());
        let spaced = if (bits.len() - 1) % 8 == 0 {
            head.push(' ')
        } else {
            head
        };
        spaced.push(
            if bits.last() {
                'X'
            } else {
                '.'
            },
        )
    }
}

/// A range that was set reads as set: for every `0 <= start <= end` within
/// the array, all bits from `start` to `end` are set once the range was set.
pub proof fn lemma_set_range_is_range(bits: Seq<bool>, start: int, end: int)
    requires
        0 <= start <= end <= bits.len(),
    ensures
        range_is(with_range_set(bits, start, end), start, end, true),
{
}

/// Bits that were appended from a word read back as they were given: behind
/// the old bits stand the `count` low bits of `value`, most significant
/// first, and the old bits are as before.
pub proof fn lemma_appended_bits_read_back(bits: Seq<bool>, value: u32, count: nat, i: int)
    requires
        0 <= i < bits.len() + count,
    ensures
        (bits + low_bits(value, count))[i] == (if i < bits.len() {
            bits[i]
        } else {
            bit(value, count - 1 - (i - bits.len()))
        }),
{
}

/// Reversing twice gives the bits back.
pub proof fn lemma_reverse_twice(bits: Seq<bool>)
    ensures
        bits.reverse().reverse() == bits,
{
    assert(bits.reverse().reverse() =~= bits);
}

/// The number of words that hold `size` bits.
pub open spec fn words_for(size: int) -> int {
    (size + 31) / 32
}

/// The number of bits for which room is made where the words have to grow
/// to hold `new_size` bits: a third more than asked, as far as a `usize`
/// counts.
pub open spec fn roomy_size(new_size: int) -> int {
    if new_size + (new_size + 2) / 3 > usize::MAX {
        usize::MAX as int
    } else {
        new_size + (new_size + 2) / 3
    }
}

/// The number of words after room was made for `new_size` bits in an array
/// of `words` words: as many as before where they hold the bits, and
/// otherwise as many as hold a third more bits than asked.
pub open spec fn grown_words(words: int, new_size: int) -> int {
    if words_for(new_size) > words {
        words_for(roomy_size(new_size))
    } else {
        words
    }
}

/// A simple, fast array of bits, held compactly in 32-bit words.
///
/// The array is the sequence of its first `size` bits. The words may hold
/// further bits behind them; those are never read.
#[derive(Debug)]
pub struct BitArray {
    bits: Vec<u32>,
    size: usize,
}

impl View for BitArray {
    type V = Seq<bool>;

    open spec fn view(&self) -> Seq<bool> {
        bits_of(self.words(), self.spec_size())
    }
}

impl BitArray {
    /// The words that hold the bits, spare words included.
    pub closed spec fn words(&self) -> Seq<u32> {
        self.bits@
    }

    /// The number of bits in the array.
    pub closed spec fn spec_size(&self) -> nat {
        self.size as nat
    }

    /// The words have room for every bit of the array.
    pub open spec fn wf(&self) -> bool {
        self.spec_size() <= 32 * self.words().len()
    }

    /// An empty array.
    pub fn new() -> (r: Self)
        ensures
            r.wf(),
            r@ == Seq::<bool>::empty(),
            r.words().len() == 0,
    {
        let r = Self { bits: Vec::new(), size: 0 };
        assert(r@ =~= Seq::<bool>::empty());
        r
    }

    /// An array of `size` clear bits.
    pub fn with_size(size: usize) -> (r: Self)
        ensures
            r.wf(),
            r@ == Seq::new(size as nat, |i: int| false),
            r.spec_size() == size,
            r.words().len() == words_for(size as int),
    {
        let r = Self { bits: BitArray::makeArray(size), size };
        proof {
            assert forall|i: int| 0 <= i < size implies !(#[trigger] r@[i]) by {
                lemma_bit_constants(i % 32);
            }
            assert(r@ =~= Seq::new(size as nat, |i: int| false));
        }
        r
    }

    /// The array of the first `size` bits that the words `bits` pack.
    pub fn with_initial_values(bits: Vec<u32>, size: usize) -> (r: Self)
        requires
            size <= 32 * bits@.len(),
        ensures
            r.wf(),
            r.words() == bits@,
            r.spec_size() == size,
    {
        Self { bits, size }
    }

    /// The number of bits in the array.
    pub fn getSize(&self) -> (r: usize)
        ensures
            r == self@.len(),
            r == self.spec_size(),
    {
        self.size
    }

    /// The number of bytes that hold the bits of the array.
    pub fn getSizeInBytes(&self) -> (r: usize)
        ensures
            r == (self@.len() + 7) / 8,
    {
        if self.size % 8 == 0 {
            self.size / 8
        } else {
            self.size / 8 + 1
        }
    }

    /// Makes room for `newSize` bits. Where the words have to grow, they grow
    /// to hold a third more bits than asked. The bits stay as they are.
    fn ensureCapacity(&mut self, newSize: usize)
        requires
            old(self).wf(),
        ensures
            final(self).wf(),
            final(self).spec_size() == old(self).spec_size(),
            final(self).words().len() >= old(self).words().len(),
            final(self).words().len() * 32 >= newSize,
            final(self).words().len() == grown_words(old(self).words().len() as int, newSize as int),
            forall|k: int|
                0 <= k < old(self).words().len() ==> final(self).words()[k] == old(self).words()[k],
            forall|k: int|
                old(self).words().len() <= k < final(self).words().len() ==> final(self).words()[k]
                    == 0u32,
            final(self)@ == old(self)@,
    {
        if BitArray::wordCount(newSize) > self.bits.len() {
            let third: usize = if newSize % 3 == 0 {
                newSize / 3
            } else {
                newSize / 3 + 1
            };
            let wanted: usize = if newSize <= usize::MAX - third {
                newSize + third
            } else {
                usize::MAX
            };
            let target: usize = BitArray::wordCount(wanted);
            assert(wanted == roomy_size(newSize as int));
            while self.bits.len() < target
                invariant
                    self.size == old(self).size,
                    self.bits@.len() >= old(self).bits@.len(),
                    self.bits@.len() <= target,
                    old(self).bits@.len() <= target,
                    forall|k: int|
                        0 <= k < old(self).bits@.len() ==> self.bits@[k] == old(self).bits@[k],
                    forall|k: int|
                        old(self).bits@.len() <= k < self.bits@.len() ==> self.bits@[k] == 0u32,
                decreases target - self.bits.len(),
            {
                self.bits.push(0u32);
            }
        }
        assert(self@ =~= old(self)@);
    }

    /// The number of words that hold `size` bits.
    fn wordCount(size: usize) -> (n: usize)
        ensures
            n == words_for(size as int),
    {
        if size % 32 == 0 {
            size / 32
        } else {
            size / 32 + 1
        }
    }

    /// Whether bit `i` is set.
    pub fn get(&self, i: usize) -> (r: bool)
        requires
            self.wf(),
            i < self@.len(),
        ensures
            r == self@[i as int],
    {
        let k: u32 = (i % 32) as u32;
        proof {
            lemma_bit_test(self.bits@[i as int / 32], k);
        }
        (self.bits[i / 32] & (1u32 << k)) != 0
    }

    /// Sets bit `i`.
    pub fn set(&mut self, i: usize)
        requires
            old(self).wf(),
            i < old(self)@.len(),
        ensures
            final(self).wf(),
            final(self)@ == old(self)@.update(i as int, true),
            final(self).words().len() == old(self).words().len(),
            final(self).spec_size() == old(self).spec_size(),
    {
        let k: u32 = (i % 32) as u32;
        let w: u32 = self.bits[i / 32];
        self.bits[i / 32] = w | (1u32 << k);
        proof {
            assert forall|j: int| 0 <= j < self.size implies self@[j] == old(self)@.update(
                i as int,
                true,
            )[j] by {
                lemma_bit_binary(w, 1u32 << k, j % 32);
                lemma_bit_masks(k, j % 32);
            }
            assert(self@ =~= old(self)@.update(i as int, true));
        }
    }

    /// Flips bit `i`.
    pub fn flip(&mut self, i: usize)
        requires
            old(self).wf(),
            i < old(self)@.len(),
        ensures
            final(self).wf(),
            final(self)@ == old(self)@.update(i as int, !old(self)@[i as int]),
            final(self).words().len() == old(self).words().len(),
            final(self).spec_size() == old(self).spec_size(),
    {
        let k: u32 = (i % 32) as u32;
        let w: u32 = self.bits[i / 32];
        self.bits[i / 32] = w ^ (1u32 << k);
        proof {
            assert forall|j: int| 0 <= j < self.size implies self@[j] == old(self)@.update(
                i as int,
                !old(self)@[i as int],
            )[j] by {
                lemma_bit_binary(w, 1u32 << k, j % 32);
                lemma_bit_masks(k, j % 32);
            }
            assert(self@ =~= old(self)@.update(i as int, !old(self)@[i as int]));
        }
    }

    /// Index of the first bit at or after `from` that equals `value`, or the
    /// size where there is none. Whole words without such a bit are passed
    /// over at once.
    fn nextEqual(&self, from: usize, value: bool) -> (r: usize)
        requires
            self.wf(),
        ensures
            r == next_equal(self@, from as int, value),
    {
        if from >= self.size {
            proof {
                lemma_next_equal(self@, from as int, value);
            }
            return self.size;
        }
        let last: usize = (self.size - 1) / 32;
        let mut bitsOffset: usize = from / 32;
        let first: u32 = if value {
            self.bits[bitsOffset]
        } else {
            !self.bits[bitsOffset]
        };
        let k: u32 = (from % 32) as u32;
        // mask off lesser bits first
        let mut currentBits: u32 = first & (0xffff_ffffu32 << k);
        proof {
            assert forall|i: int| 0 <= i < 32 implies bit(currentBits, i) == ((bit(
                self.bits@[bitsOffset as int],
                i,
            ) == value) && 32 * bitsOffset + i >= from) by {
                lemma_bit_binary(first, 0xffff_ffffu32 << k, i);
                lemma_bit_masks(k, i);
                lemma_bit_binary(self.bits@[bitsOffset as int], 0, i);
            }
        }
        while currentBits == 0
            invariant
                self.wf(),
                from < self.size,
                last == (self.size - 1) / 32,
                from / 32 <= bitsOffset <= last,
                forall|i: int|
                    0 <= i < 32 ==> bit(currentBits, i) == ((bit(self.bits@[bitsOffset as int], i)
                        == value) && 32 * bitsOffset + i >= from),
                forall|j: int| from <= j < 32 * bitsOffset && j < self.size ==> self@[j] != value,
            decreases last - bitsOffset,
        {
            proof {
                lemma_word_zero(currentBits);
                assert forall|j: int|
                    from <= j < 32 * (bitsOffset + 1) && j < self.size implies self@[j]
                    != value by {
                    if j >= 32 * bitsOffset {
                        assert(!bit(currentBits, j % 32));
                    }
                }
            }
            if bitsOffset == last {
                proof {
                    lemma_next_equal_is(self@, from as int, value, self.size as int);
                }
                return self.size;
            }
            bitsOffset += 1;
            currentBits = if value {
                self.bits[bitsOffset]
            } else {
                !self.bits[bitsOffset]
            };
            proof {
                assert forall|i: int| 0 <= i < 32 implies bit(currentBits, i) == ((bit(
                    self.bits@[bitsOffset as int],
                    i,
                ) == value) && 32 * bitsOffset + i >= from) by {
                    lemma_bit_binary(self.bits@[bitsOffset as int], 0, i);
                }
            }
        }
        let low: usize = lowest_set_bit(currentBits) as usize;
        let base: usize = bitsOffset * 32;
        proof {
            assert forall|j: int| from <= j < base + low && j < self.size implies self@[j]
                != value by {
                if j >= base {
                    assert(!bit(currentBits, j % 32));
                }
            }
        }
        if low >= self.size - base {
            proof {
                lemma_next_equal_is(self@, from as int, value, self.size as int);
            }
            self.size
        } else {
            proof {
                assert(bit(currentBits, low as int));
                assert(self@[base + low] == value);
                lemma_next_equal_is(self@, from as int, value, base + low);
            }
            base + low
        }
    }

    /// Index of the first set bit at or after `from`, or the size where no
    /// bit is set from there on.
    pub fn getNextSet(&self, from: usize) -> (r: usize)
        requires
            self.wf(),
        ensures
            r == next_set(self@, from as int),
            r <= self@.len(),
            from <= self@.len() ==> from <= r,
            forall|j: int| from <= j < r ==> !self@[j],
            r < self@.len() ==> self@[r as int],
    {
        proof {
            lemma_next_equal(self@, from as int, true);
        }
        self.nextEqual(from, true)
    }

    /// Index of the first clear bit at or after `from`, or the size where
    /// every bit is set from there on.
    pub fn getNextUnset(&self, from: usize) -> (r: usize)
        requires
            self.wf(),
        ensures
            r == next_unset(self@, from as int),
            r <= self@.len(),
            from <= self@.len() ==> from <= r,
            forall|j: int| from <= j < r ==> self@[j],
            r < self@.len() ==> !self@[r as int],
    {
        proof {
            lemma_next_equal(self@, from as int, false);
        }
        self.nextEqual(from, false)
    }

    /// Replaces the word that holds bit `i` by `newBits`, whose least
    /// significant bit becomes the first bit of that word.
    pub fn setBulk(&mut self, i: usize, newBits: u32)
        requires
            old(self).wf(),
            i / 32 < old(self).words().len(),
        ensures
            final(self).wf(),
            final(self).spec_size() == old(self).spec_size(),
            final(self).words() == old(self).words().update(i as int / 32, newBits),
    {
        self.bits[i / 32] = newBits;
    }

    /// Sets the bits from `start` to `end`, `end` excluded.
    pub fn setRange(&mut self, start: usize, end: usize) -> (r: Result<
        (),
        IllegalArgumentException,
    >)
        requires
            old(self).wf(),
        ensures
            final(self).wf(),
            final(self).words().len() == old(self).words().len(),
            final(self).spec_size() == old(self).spec_size(),
            r.is_err() <==> (end < start || end > old(self)@.len()),
            r.is_err() ==> r == Err::<(), IllegalArgumentException>(
                IllegalArgumentException::RangeOutOfBounds,
            ) && final(self)@ == old(self)@,
            r.is_ok() ==> final(self)@ == with_range_set(old(self)@, start as int, end as int),
    {
        if end < start || end > self.size {
            return Err(IllegalArgumentException::RangeOutOfBounds);
        }
        if end == start {
            assert(self@ =~= with_range_set(old(self)@, start as int, end as int));
            return Ok(());
        }
        let last: usize = end - 1;  // the last bit to set, included
        let firstInt: usize = start / 32;
        let lastInt: usize = last / 32;
        let mut i: usize = firstInt;
        while i <= lastInt
            invariant
                self.size == old(self).size,
                self.bits@.len() == old(self).bits@.len(),
                self.wf(),
                start <= last < self.size,
                last == end - 1,
                firstInt == start / 32,
                lastInt == last / 32,
                firstInt <= i <= lastInt + 1,
                forall|j: int|
                    0 <= j < self.size ==> self@[j] == ((start <= j < end && j < 32 * i)
                        || old(self)@[j]),
            decreases lastInt + 1 - i,
        {
            let firstBit: u32 = if i > firstInt {
                0
            } else {
                (start % 32) as u32
            };
            let lastBit: u32 = if i < lastInt {
                31
            } else {
                (last % 32) as u32
            };
            // Ones from firstBit to lastBit, both included
            let mask: u32 = range_mask(firstBit, lastBit);
            let w: u32 = self.bits[i];
            let ghost before = self@;
            self.bits[i] = w | mask;
            proof {
                assert forall|j: int| 0 <= j < self.size implies self@[j] == ((start <= j < end && j
                    < 32 * (i + 1)) || old(self)@[j]) by {
                    assert(before[j] == ((start <= j < end && j < 32 * i) || old(self)@[j]));
                    if j / 32 == i {
                        lemma_bit_binary(w, mask, j % 32);
                    }
                }
            }
            i += 1;
        }
        assert(self@ =~= with_range_set(old(self)@, start as int, end as int));
        Ok(())
    }

    /// Clears every bit.
    pub fn clear(&mut self)
        requires
            old(self).wf(),
        ensures
            final(self).wf(),
            final(self).words().len() == old(self).words().len(),
            final(self).spec_size() == old(self).spec_size(),
            final(self)@ == Seq::new(old(self)@.len(), |j: int| false),
    {
        let max: usize = self.bits.len();
        let mut i: usize = 0;
        while i < max
            invariant
                self.size == old(self).size,
                self.bits@.len() == max,
                i <= max,
                forall|k: int| 0 <= k < i ==> self.bits@[k] == 0u32,
            decreases max - i,
        {
            self.bits[i] = 0;
            i += 1;
        }
        proof {
            assert forall|j: int| 0 <= j < self.size implies !(#[trigger] self@[j]) by {
                lemma_bit_constants(j % 32);
            }
            assert(self@ =~= Seq::new(old(self)@.len(), |j: int| false));
        }
    }

    /// Whether every bit from `start` to `end`, `end` excluded, equals
    /// `value`. An empty range has the property.
    pub fn isRange(&self, start: usize, end: usize, value: bool) -> (r: Result<
        bool,
        IllegalArgumentException,
    >)
        requires
            self.wf(),
        ensures
            r.is_err() <==> (end < start || end > self@.len()),
            r.is_err() ==> r == Err::<bool, IllegalArgumentException>(
                IllegalArgumentException::RangeOutOfBounds,
            ),
            r.is_ok() ==> r.unwrap() == range_is(self@, start as int, end as int, value),
    {
        if end < start || end > self.size {
            return Err(IllegalArgumentException::RangeOutOfBounds);
        }
        if end == start {
            return Ok(true);  // an empty range matches
        }
        let last: usize = end - 1;  // the last bit to test, included
        let firstInt: usize = start / 32;
        let lastInt: usize = last / 32;
        let mut i: usize = firstInt;
        while i <= lastInt
            invariant
                self.wf(),
                start <= last < self.size,
                last == end - 1,
                firstInt == start / 32,
                lastInt == last / 32,
                firstInt <= i <= lastInt + 1,
                forall|j: int| start <= j < end && j < 32 * i ==> self@[j] == value,
            decreases lastInt + 1 - i,
        {
            let firstBit: u32 = if i > firstInt {
                0
            } else {
                (start % 32) as u32
            };
            let lastBit: u32 = if i < lastInt {
                31
            } else {
                (last % 32) as u32
            };
            // Ones from firstBit to lastBit, both included
            let mask: u32 = range_mask(firstBit, lastBit);
            let w: u32 = self.bits[i];
            let expected: u32 = if value {
                mask
            } else {
                0
            };
            if (w & mask) != expected {
                proof {
                    if forall|j: int| start <= j < end ==> self@[j] == value {
                        assert forall|t: int| 0 <= t < 32 implies bit(w & mask, t) == bit(
                            expected,
                            t,
                        ) by {
                            lemma_bit_binary(w, mask, t);
                            lemma_bit_constants(t);
                            if bit(mask, t) {
                                assert(self@[32 * i + t] == value);
                            }
                        }
                        lemma_word_extensional(w & mask, expected);
                    }
                }
                return Ok(false);
            }
            proof {
                assert forall|j: int| start <= j < end && j < 32 * (i + 1) implies self@[j]
                    == value by {
                    if j / 32 == i {
                        lemma_bit_binary(w, mask, j % 32);
                        lemma_bit_constants(j % 32);
                    }
                }
            }
            i += 1;
        }
        Ok(true)
    }

    /// Appends one bit.
    pub fn appendBit(&mut self, value: bool)
        requires
            old(self).wf(),
            old(self)@.len() < usize::MAX,
        ensures
            final(self).wf(),
            final(self)@ == old(self)@.push(value),
            final(self).words().len() == grown_words(
                old(self).words().len() as int,
                (old(self)@.len() + 1) as int,
            ),
    {
        self.ensureCapacity(self.size + 1);
        let ghost grown = self@;
        let k: u32 = (self.size % 32) as u32;
        let at: usize = self.size / 32;
        let w: u32 = self.bits[at];
        let mask: u32 = 1u32 << k;
        self.bits[at] = if value {
            w | mask
        } else {
            w & !mask
        };
        self.size += 1;
        proof {
            assert forall|j: int| 0 <= j < self.size implies self@[j] == old(self)@.push(
                value,
            )[j] by {
                lemma_bit_binary(w, mask, j % 32);
                lemma_bit_binary(w, !mask, j % 32);
                lemma_bit_binary(mask, mask, j % 32);
                lemma_bit_masks(k, j % 32);
                if j < self.size - 1 {
                    assert(grown[j] == old(self)@[j]);
                }
            }
            assert(self@ =~= old(self)@.push(value));
        }
    }

    /// Appends the `numBits` least significant bits of `value`, the most
    /// significant of them first. The size of the array that comes of it
    /// has to fit in a `usize`.
    pub fn appendBits(&mut self, value: u32, numBits: usize) -> (r: Result<
        (),
        IllegalArgumentException,
    >)
        requires
            old(self).wf(),
            numBits <= 32 ==> old(self)@.len() + numBits <= usize::MAX,
        ensures
            final(self).wf(),
            r.is_err() <==> numBits > 32,
            r.is_err() ==> r == Err::<(), IllegalArgumentException>(
                IllegalArgumentException::NumBitsOutOfRange,
            ) && final(self)@ == old(self)@ && final(self).words() == old(self).words(),
            r.is_ok() ==> final(self)@ == old(self)@ + low_bits(value, numBits as nat),
            r.is_ok() ==> final(self)@.len() == old(self)@.len() + numBits,
            r.is_ok() ==> forall|i: int|
                0 <= i < old(self)@.len() ==> #[trigger] final(self)@[i] == old(self)@[i],
            r.is_ok() ==> forall|k: int|
                0 <= k < numBits ==> #[trigger] final(self)@[old(self)@.len() + k] == bit(
                    value,
                    numBits - 1 - k,
                ),
            r.is_ok() ==> final(self).words().len() == grown_words(
                old(self).words().len() as int,
                (old(self)@.len() + numBits) as int,
            ),
    {
        if numBits > 32 {
            return Err(IllegalArgumentException::NumBitsOutOfRange);
        }
        self.ensureCapacity(self.size + numBits);
        let mut numBitsLeft: usize = numBits;
        while numBitsLeft > 0
            invariant
                self.wf(),
                numBitsLeft <= numBits <= 32,
                self@.len() == old(self)@.len() + (numBits - numBitsLeft),
                old(self)@.len() + numBits <= usize::MAX,
                self.words().len() == grown_words(
                    old(self).words().len() as int,
                    (old(self)@.len() + numBits) as int,
                ),
                32 * self.words().len() >= old(self)@.len() + numBits,
                self@ == old(self)@ + low_bits(value, numBits as nat).subrange(
                    0,
                    numBits - numBitsLeft,
                ),
            decreases numBitsLeft,
        {
            numBitsLeft -= 1;
            let k: u32 = numBitsLeft as u32;
            proof {
                lemma_bit_test(value, k);
            }
            let ghost before = self@;
            self.appendBit((value & (1u32 << k)) != 0);
            assert(self@ =~= old(self)@ + low_bits(value, numBits as nat).subrange(
                0,
                numBits - numBitsLeft,
            ));
        }
        assert(low_bits(value, numBits as nat).subrange(0, numBits as int) =~= low_bits(
            value,
            numBits as nat,
        ));
        Ok(())
    }

    /// Appends the bits of `other`.
    pub fn appendBitArray(&mut self, other: &BitArray)
        requires
            old(self).wf(),
            other.wf(),
            old(self)@.len() + other@.len() <= usize::MAX,
        ensures
            final(self).wf(),
            final(self).words().len() == grown_words(
                old(self).words().len() as int,
                (old(self)@.len() + other@.len()) as int,
            ),
            final(self)@ == old(self)@ + other@,
    {
        let otherSize: usize = other.size;
        self.ensureCapacity(self.size + otherSize);
        let mut i: usize = 0;
        while i < otherSize
            invariant
                self.wf(),
                other.wf(),
                otherSize == other@.len(),
                i <= otherSize,
                old(self)@.len() + other@.len() <= usize::MAX,
                self@.len() == old(self)@.len() + i,
                self.words().len() == grown_words(
                    old(self).words().len() as int,
                    (old(self)@.len() + other@.len()) as int,
                ),
                32 * self.words().len() >= old(self)@.len() + other@.len(),
                self@ == old(self)@ + other@.subrange(0, i as int),
            decreases otherSize - i,
        {
            let value: bool = other.get(i);
            self.appendBit(value);
            i += 1;
            assert(self@ =~= old(self)@ + other@.subrange(0, i as int));
        }
        assert(other@.subrange(0, otherSize as int) =~= other@);
    }

    /// Replaces each bit by its exclusive or with the bit of `other` at the
    /// same place.
    pub fn xor(&mut self, other: &BitArray) -> (r: Result<(), IllegalArgumentException>)
        requires
            old(self).wf(),
            other.wf(),
        ensures
            final(self).wf(),
            final(self).words().len() == old(self).words().len(),
            final(self).spec_size() == old(self).spec_size(),
            r.is_err() <==> old(self)@.len() != other@.len(),
            r.is_err() ==> r == Err::<(), IllegalArgumentException>(
                IllegalArgumentException::SizesDontMatch,
            ) && final(self)@ == old(self)@,
            r.is_ok() ==> final(self)@ == Seq::new(
                old(self)@.len(),
                |j: int| old(self)@[j] != other@[j],
            ),
    {
        if self.size != other.size {
            return Err(IllegalArgumentException::SizesDontMatch);
        }
        let max: usize = BitArray::wordCount(self.size);
        let mut i: usize = 0;
        while i < max
            invariant
                self.size == old(self).size,
                self.size == other.size,
                self.bits@.len() == old(self).bits@.len(),
                self.wf(),
                other.wf(),
                max == words_for(self.size as int),
                i <= max,
                forall|k: int| 0 <= k < i ==> self.bits@[k] == old(self).bits@[k] ^ other.bits@[k],
                forall|k: int| i <= k < self.bits@.len() ==> self.bits@[k] == old(self).bits@[k],
            decreases max - i,
        {
            // The last word may be incomplete; the bits behind the size are
            // not read.
            let w: u32 = self.bits[i];
            self.bits[i] = w ^ other.bits[i];
            i += 1;
        }
        proof {
            assert forall|j: int| 0 <= j < self.size implies self@[j] == (old(self)@[j]
                != other@[j]) by {
                lemma_bit_binary(old(self).bits@[j / 32], other.bits@[j / 32], j % 32);
            }
            assert(self@ =~= Seq::new(old(self)@.len(), |j: int| old(self)@[j] != other@[j]));
        }
        Ok(())
    }

    /// Writes `numBytes` bytes into `array` from `offset` on. Each byte holds
    /// eight bits of the array, the first of them as its most significant
    /// bit; the first byte starts at bit `bitOffset`.
    pub fn toBytes(&self, bitOffset: usize, array: &mut Vec<u8>, offset: usize, numBytes: usize)
        requires
            self.wf(),
            bitOffset + 8 * numBytes <= self@.len(),
            offset + numBytes <= old(array)@.len(),
        ensures
            final(array)@.len() == old(array)@.len(),
            forall|k: int, b: int|
                offset <= k < offset + numBytes && 0 <= b < 8 ==> #[trigger] byte_bit(
                    final(array)@[k],
                    b,
                ) == self@[bitOffset + 8 * (k - offset) + 7 - b],
            forall|k: int|
                0 <= k < old(array)@.len() && !(offset <= k < offset + numBytes)
                    ==> final(array)@[k] == old(array)@[k],
    {
        let mut i: usize = 0;
        while i < numBytes
            invariant
                self.wf(),
                i <= numBytes,
                bitOffset + 8 * numBytes <= self@.len(),
                offset + numBytes <= array@.len(),
                array@.len() == old(array)@.len(),
                forall|k: int, b: int|
                    offset <= k < offset + i && 0 <= b < 8 ==> #[trigger] byte_bit(array@[k], b)
                        == self@[bitOffset + 8 * (k - offset) + 7 - b],
                forall|k: int|
                    0 <= k < array@.len() && !(offset <= k < offset + i)
                        ==> array@[k] == old(array)@[k],
            decreases numBytes - i,
        {
            let theByte: u8 = self.packByte(bitOffset + 8 * i);
            let total: usize = array.len();
            let at: usize = offset + i;
            assert(at < total);
            array[at] = theByte;
            i += 1;
        }
    }

    /// The byte that holds the eight bits from `from` on, the first of them
    /// as its most significant bit.
    fn packByte(&self, from: usize) -> (theByte: u8)
        requires
            self.wf(),
            from + 8 <= self@.len(),
        ensures
            forall|b: int| 0 <= b < 8 ==> #[trigger] byte_bit(theByte, b) == self@[from + 7 - b],
    {
        let mut theByte: u8 = 0;
        let mut j: usize = 0;
        proof {
            assert forall|b: int| 0 <= b < 8 implies !#[trigger] byte_bit(theByte, b) by {
                lemma_byte_set(0u8, 0u8, b);
            }
        }
        while j < 8
            invariant
                self.wf(),
                j <= 8,
                from + 8 <= self@.len(),
                forall|b: int|
                    0 <= b < 8 ==> #[trigger] byte_bit(theByte, b) == (7 - b < j && self@[from + 7
                        - b]),
            decreases 8 - j,
        {
            let ghost before = theByte;
            if self.get(from + j) {
                theByte = theByte | (1u8 << ((7 - j) as u8));
            }
            proof {
                assert forall|b: int| 0 <= b < 8 implies #[trigger] byte_bit(theByte, b) == (7 - b
                    < j + 1 && self@[from + 7 - b]) by {
                    lemma_byte_set(before, (7 - j) as u8, b);
                    assert(byte_bit(before, b) == (7 - b < j && self@[from + 7 - b]));
                }
            }
            j += 1;
        }
        theByte
    }

    /// The words that hold the bits. The first word holds the first 32 bits,
    /// the first of them as its least significant bit.
    pub fn getBitArray(&self) -> (r: Vec<u32>)
        ensures
            r@ == self.words(),
    {
        let r = self.bits.clone();
        assert(r@ =~= self.bits@);
        r
    }

    /// Reverses the order of the bits.
    pub fn reverse(&mut self)
        requires
            old(self).wf(),
        ensures
            final(self).wf(),
            final(self).words().len() == old(self).words().len(),
            final(self).spec_size() == old(self).spec_size(),
            final(self)@ == old(self)@.reverse(),
    {
        if self.size == 0 {
            assert(self@ =~= old(self)@.reverse());
            return ;
        }
        // reverse all words first
        let count: usize = (self.size - 1) / 32 + 1;
        let mut newBits: Vec<u32> = BitArray::turnWords(&self.bits, count);
        let ghost turned = newBits@;
        // now correct the words if the size is not a multiple of 32
        let used: usize = self.size % 32;
        let ghost gap: int = if used == 0 {
            0
        } else {
            32 - used
        };
        assert(gap == 32 * count - self.size);
        if used != 0 {
            BitArray::shiftDown(&mut newBits, count, (32 - used) as u32);
        }
        proof {
            assert forall|j: int| 0 <= j < self.size implies #[trigger] word_bit(newBits@, j)
                == word_bit(self.bits@, self.size - 1 - j) by {
                assert(word_bit(newBits@, j) == word_bit(turned, j + gap));
                assert(word_bit(turned, j + gap) == word_bit(
                    self.bits@,
                    32 * count - 1 - (j + gap),
                ));
            }
            lemma_reversed(self.bits@, newBits@, self.size as nat);
        }
        self.bits = newBits;
    }

    /// As many words as `words` has, of which the first `count` hold the
    /// first `32 * count` bits of `words` in reverse order.
    fn turnWords(words: &Vec<u32>, count: usize) -> (r: Vec<u32>)
        requires
            1 <= count <= words@.len(),
        ensures
            r@.len() == words@.len(),
            forall|g: int|
                0 <= g < 32 * count ==> #[trigger] word_bit(r@, g) == word_bit(
                    words@,
                    32 * count - 1 - g,
                ),
    {
        let mut newBits: Vec<u32> = vec![0u32; words.len()];
        let len: usize = count - 1;
        let mut i: usize = 0;
        while i < count
            invariant
                len == count - 1,
                count <= words@.len(),
                i <= count,
                newBits@.len() == words@.len(),
                forall|k: int, t: int|
                    len - i < k <= len && 0 <= t < 32 ==> #[trigger] bit(newBits@[k], t) == bit(
                        words@[len - k],
                        31 - t,
                    ),
            decreases count - i,
        {
            newBits[len - i] = reverse_word(words[i]);
            i += 1;
        }
        proof {
            assert forall|g: int| 0 <= g < 32 * count implies #[trigger] word_bit(newBits@, g)
                == word_bit(words@, 32 * count - 1 - g) by {
                assert(bit(newBits@[g / 32], g % 32) == bit(words@[len - g / 32], 31 - g % 32));
            }
        }
        newBits
    }

    /// Moves the bits of the first `count` words down by `leftOffset`
    /// places: bit `j + leftOffset` becomes bit `j`.
    fn shiftDown(words: &mut Vec<u32>, count: usize, leftOffset: u32)
        requires
            1 <= count <= old(words)@.len(),
            0 < leftOffset < 32,
        ensures
            final(words)@.len() == old(words)@.len(),
            forall|j: int|
                0 <= j < 32 * count - leftOffset ==> #[trigger] word_bit(final(words)@, j)
                    == word_bit(old(words)@, j + leftOffset),
    {
        let mut currentInt: u32 = words[0] >> leftOffset;
        let mut i: usize = 1;
        while i < count
            invariant
                1 <= i <= count,
                count <= words@.len(),
                words@.len() == old(words)@.len(),
                0 < leftOffset < 32,
                currentInt == old(words)@[i - 1] >> leftOffset,
                forall|k: int| i <= k < words@.len() ==> words@[k] == old(words)@[k],
                forall|k: int|
                    0 <= k < i - 1 ==> #[trigger] words@[k] == (old(words)@[k] >> leftOffset) | (
                    old(words)@[k + 1] << ((32 - leftOffset) as u32)),
            decreases count - i,
        {
            let nextInt: u32 = words[i];
            currentInt = currentInt | (nextInt << (32 - leftOffset));
            words[i - 1] = currentInt;
            currentInt = nextInt >> leftOffset;
            i += 1;
        }
        words[count - 1] = currentInt;
        proof {
            assert forall|j: int| 0 <= j < 32 * count - leftOffset implies #[trigger] word_bit(
                words@,
                j,
            ) == word_bit(old(words)@, j + leftOffset) by {
                let k = j / 32;
                let t = j % 32;
                lemma_bit_shift(old(words)@[k], leftOffset, t);
                if k < count - 1 {
                    lemma_bit_shift(old(words)@[k + 1], (32 - leftOffset) as u32, t);
                    lemma_bit_binary(
                        old(words)@[k] >> leftOffset,
                        old(words)@[k + 1] << ((32 - leftOffset) as u32),
                        t,
                    );
                }
            }
        }
    }

    /// The text of the array: `X` for a set bit and `.` for a clear one,
    /// with a space before every group of eight.
    pub fn toString(&self) -> (text: String)
        requires
            self.wf(),
        ensures
            text@ == bits_text(self@),
    {
        let mut text = String::new();
        let mut i: usize = 0;
        while i < self.size
            invariant
                self.wf(),
                i <= self.size,
                text@ == bits_text(self@.subrange(0, i as int)),
            decreases self.size - i,
        {
            if i % 8 == 0 {
                text.push(' ');
            }
            text.push(
                if self.get(i) {
                    'X'
                } else {
                    '.'
                },
            );
            proof {
                let now = self@.subrange(0, i + 1);
                assert(now.drop_last() =~= self@.subrange(0, i as int));
            }
            i += 1;
        }
        assert(self@.subrange(0, self.size as int) =~= self@);
        text
    }

    /// Bit `i` of the words; a bit behind the last word reads as clear.
    fn bitAt(&self, i: usize) -> (r: bool)
        ensures
            r == word_bit(self.words(), i as int),
    {
        if i / 32 < self.bits.len() {
            let k: u32 = (i % 32) as u32;
            proof {
                lemma_bit_test(self.bits@[i as int / 32], k);
            }
            (self.bits[i / 32] & (1u32 << k)) != 0
        } else {
            false
        }
    }

    /// As many zero words as hold `size` bits.
    fn makeArray(size: usize) -> (r: Vec<u32>)
        ensures
            r@.len() == words_for(size as int),
            forall|k: int| 0 <= k < r@.len() ==> r@[k] == 0u32,
    {
        vec![0u32; BitArray::wordCount(size)]
    }
}

impl Clone for BitArray {
    /// A copy with the same words and the same size.
    fn clone(&self) -> (r: Self)
        ensures
            r.words() == self.words(),
            r.spec_size() == self.spec_size(),
            r@ == self@,
            r.wf() == self.wf(),
    {
        let bits = self.bits.clone();
        assert(bits@ =~= self.bits@);
        Self { bits, size: self.size }
    }
}

impl PartialEqSpecImpl for BitArray {
    open spec fn obeys_eq_spec() -> bool {
        true
    }

    /// Two arrays are equal when they hold the same bits.
    open spec fn eq_spec(&self, other: &BitArray) -> bool {
        self@ == other@
    }
}

impl PartialEq for BitArray {
    /// Whether the two arrays hold the same bits.
    fn eq(&self, other: &BitArray) -> (r: bool) {
        if self.size != other.size {
            assert(self@.len() != other@.len());
            return false;
        }
        let mut i: usize = 0;
        while i < self.size
            invariant
                self.size == other.size,
                i <= self.size,
                forall|j: int| 0 <= j < i ==> self@[j] == other@[j],
            decreases self.size - i,
        {
            if self.bitAt(i) != other.bitAt(i) {
                assert(self@[i as int] != other@[i as int]);
                return false;
            }
            i += 1;
        }
        assert(self@ =~= other@);
        true
    }
}

impl Eq for BitArray {

}

} // verus!
