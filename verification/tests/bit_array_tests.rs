use rxing::common::bit_array::BitArray;
use rxing::exceptions::IllegalArgumentException;

fn bits_of(array: &BitArray) -> Vec<bool> {
    let mut bits = Vec::new();
    for i in 0..array.getSize() {
        bits.push(array.get(i));
    }
    bits
}

fn array_of(bits: &[bool]) -> BitArray {
    let mut array = BitArray::new();
    for bit in bits {
        array.appendBit(*bit);
    }
    array
}

#[test]
fn new_array_is_empty() {
    let array = BitArray::new();
    assert_eq!(array.getSize(), 0);
    assert_eq!(array.getSizeInBytes(), 0);
    assert_eq!(array.getBitArray().len(), 0);
}

#[test]
fn sized_array_is_clear() {
    for size in [0usize, 1, 31, 32, 33, 64, 100] {
        let array = BitArray::with_size(size);
        assert_eq!(array.getSize(), size);
        assert_eq!(array.getSizeInBytes(), (size + 7) / 8);
        assert_eq!(array.getBitArray().len(), (size + 31) / 32);
        for i in 0..size {
            assert!(!array.get(i));
        }
    }
}

#[test]
fn set_and_get_each_bit() {
    let mut array = BitArray::with_size(33);
    for i in 0..33 {
        assert!(!array.get(i));
        array.set(i);
        assert!(array.get(i));
        for j in (i + 1)..33 {
            assert!(!array.get(j));
        }
    }
}

#[test]
fn flip_twice_gives_back() {
    let mut array = BitArray::with_size(70);
    array.set(3);
    array.flip(3);
    array.flip(40);
    assert!(!array.get(3));
    assert!(array.get(40));
    array.flip(40);
    assert_eq!(array, BitArray::with_size(70));
}

#[test]
fn initial_values_are_read_least_significant_bit_first() {
    let array = BitArray::with_initial_values(vec![0x0000_0005, 0x8000_0000], 64);
    assert!(array.get(0));
    assert!(!array.get(1));
    assert!(array.get(2));
    assert!(array.get(63));
    assert!(!array.get(62));
    assert_eq!(array.getBitArray(), vec![0x0000_0005, 0x8000_0000]);
}

#[test]
fn get_next_set_finds_each_set_bit() {
    let mut array = BitArray::with_size(100);
    assert_eq!(array.getNextSet(0), 100);
    assert_eq!(array.getNextSet(99), 100);
    assert_eq!(array.getNextSet(100), 100);
    assert_eq!(array.getNextSet(500), 100);
    array.set(31);
    array.set(32);
    array.set(70);
    assert_eq!(array.getNextSet(0), 31);
    assert_eq!(array.getNextSet(31), 31);
    assert_eq!(array.getNextSet(32), 32);
    assert_eq!(array.getNextSet(33), 70);
    assert_eq!(array.getNextSet(71), 100);
}

#[test]
fn get_next_set_does_not_read_behind_the_size() {
    let array = BitArray::with_initial_values(vec![0xffff_ff00], 8);
    assert_eq!(array.getNextSet(0), 8);
    let full = BitArray::with_initial_values(vec![0xffff_ffff, 0xffff_ffff], 40);
    assert_eq!(full.getNextUnset(0), 40);
}

#[test]
fn get_next_unset_finds_each_clear_bit() {
    let mut array = BitArray::with_size(100);
    array.setRange(0, 100).expect("the range lies in the array");
    assert_eq!(array.getNextUnset(0), 100);
    array.flip(31);
    array.flip(64);
    assert_eq!(array.getNextUnset(0), 31);
    assert_eq!(array.getNextUnset(32), 64);
    assert_eq!(array.getNextUnset(65), 100);
    assert_eq!(array.getNextUnset(200), 100);
}

#[test]
fn set_bulk_replaces_one_word() {
    let mut array = BitArray::with_size(64);
    array.setBulk(32, 0xffff_0000);
    for i in 0..48 {
        assert!(!array.get(i));
    }
    for i in 48..64 {
        assert!(array.get(i));
    }
    array.setBulk(40, 0x0000_0001);
    assert!(array.get(32));
    assert!(!array.get(48));
}

#[test]
fn set_range_then_is_range() {
    let size = 70usize;
    for start in 0..=size {
        for end in start..=size {
            let mut array = BitArray::with_size(size);
            assert_eq!(array.setRange(start, end), Ok(()));
            assert_eq!(array.isRange(start, end, true), Ok(true));
            assert_eq!(array.isRange(0, start, false), Ok(true));
            assert_eq!(array.isRange(end, size, false), Ok(true));
            if start < end {
                assert_eq!(array.isRange(start, end, false), Ok(false));
            }
        }
    }
}

#[test]
fn set_range_refuses_bad_ranges() {
    let mut array = BitArray::with_size(64);
    assert_eq!(array.setRange(5, 4), Err(IllegalArgumentException::RangeOutOfBounds));
    assert_eq!(array.setRange(0, 65), Err(IllegalArgumentException::RangeOutOfBounds));
    assert_eq!(array.setRange(64, 65), Err(IllegalArgumentException::RangeOutOfBounds));
    assert_eq!(array, BitArray::with_size(64));
    assert_eq!(array.setRange(64, 64), Ok(()));
    assert_eq!(array, BitArray::with_size(64));
}

#[test]
fn is_range_refuses_bad_ranges_and_accepts_empty_ones() {
    let array = BitArray::with_size(64);
    assert_eq!(array.isRange(5, 4, true), Err(IllegalArgumentException::RangeOutOfBounds));
    assert_eq!(array.isRange(0, 65, false), Err(IllegalArgumentException::RangeOutOfBounds));
    assert_eq!(array.isRange(7, 7, true), Ok(true));
    assert_eq!(array.isRange(7, 7, false), Ok(true));
    assert_eq!(array.isRange(0, 64, false), Ok(true));
    assert_eq!(array.isRange(0, 64, true), Ok(false));
}

#[test]
fn is_range_sees_one_wrong_bit() {
    let mut array = BitArray::with_size(96);
    array.setRange(10, 80).expect("the range lies in the array");
    array.flip(45);
    assert_eq!(array.isRange(10, 80, true), Ok(false));
    assert_eq!(array.isRange(10, 45, true), Ok(true));
    assert_eq!(array.isRange(46, 80, true), Ok(true));
    assert_eq!(array.isRange(45, 46, false), Ok(true));
}

#[test]
fn clear_clears_every_bit() {
    let mut array = BitArray::with_size(50);
    array.setRange(0, 50).expect("the range lies in the array");
    array.clear();
    assert_eq!(array, BitArray::with_size(50));
}

#[test]
fn append_bit_grows_the_array() {
    let mut array = BitArray::new();
    let bits = [true, false, false, true, true, false, true];
    for round in 0..20 {
        for (k, bit) in bits.iter().enumerate() {
            array.appendBit(*bit);
            assert_eq!(array.getSize(), round * bits.len() + k + 1);
        }
    }
    for i in 0..array.getSize() {
        assert_eq!(array.get(i), bits[i % bits.len()]);
    }
}

#[test]
fn append_bit_writes_clear_bits_over_spare_bits() {
    let mut array = BitArray::with_initial_values(vec![0xffff_ffff], 4);
    array.appendBit(false);
    array.appendBit(true);
    assert_eq!(bits_of(&array), vec![true, true, true, true, false, true]);
}

#[test]
fn append_bits_takes_the_most_significant_bit_first() {
    let mut array = BitArray::new();
    assert_eq!(array.appendBits(0x1E, 6), Ok(()));
    assert_eq!(bits_of(&array), vec![false, true, true, true, true, false]);
    assert_eq!(array.appendBits(0, 0), Ok(()));
    assert_eq!(array.getSize(), 6);
    assert_eq!(array.appendBits(0x8000_0001, 32), Ok(()));
    assert_eq!(array.getSize(), 38);
    assert!(array.get(6));
    assert!(array.get(37));
    for i in 7..37 {
        assert!(!array.get(i));
    }
}

#[test]
fn append_bits_reads_back_every_sequence() {
    for value in [0u32, 1, 0x5555_5555, 0xdead_beef, 0xffff_ffff] {
        for count in 0..=32usize {
            let mut array = array_of(&[true, false, true]);
            assert_eq!(array.appendBits(value, count), Ok(()));
            assert_eq!(array.getSize(), 3 + count);
            assert!(array.get(0) && !array.get(1) && array.get(2));
            for t in 0..count {
                assert_eq!(array.get(3 + t), (value >> (count - 1 - t)) & 1 == 1);
            }
        }
    }
}

#[test]
fn append_bits_refuses_more_than_a_word() {
    let mut array = array_of(&[true]);
    assert_eq!(array.appendBits(0, 33), Err(IllegalArgumentException::NumBitsOutOfRange));
    assert_eq!(bits_of(&array), vec![true]);
}

#[test]
fn append_bit_array_puts_the_other_behind() {
    let mut array = array_of(&[true, false]);
    let other = array_of(&[false, true, true]);
    array.appendBitArray(&other);
    assert_eq!(bits_of(&array), vec![true, false, false, true, true]);
    array.appendBitArray(&BitArray::new());
    assert_eq!(array.getSize(), 5);
}

#[test]
fn xor_flips_where_the_other_is_set() {
    let mut array = array_of(&[true, true, false, false]);
    let other = array_of(&[true, false, true, false]);
    assert_eq!(array.xor(&other), Ok(()));
    assert_eq!(bits_of(&array), vec![false, true, true, false]);
    let longer = array_of(&[true, false, true, false, true]);
    assert_eq!(array.xor(&longer), Err(IllegalArgumentException::SizesDontMatch));
    assert_eq!(bits_of(&array), vec![false, true, true, false]);
}

#[test]
fn xor_of_arrays_with_room_to_spare() {
    let mut array = BitArray::new();
    for _ in 0..40 {
        array.appendBit(true);
    }
    let other = BitArray::with_initial_values(vec![0x0000_00ff, 0x0000_0000], 40);
    assert_eq!(array.xor(&other), Ok(()));
    for i in 0..40 {
        assert_eq!(array.get(i), i >= 8);
    }
}

#[test]
fn to_bytes_packs_most_significant_bit_first() {
    let mut array = BitArray::new();
    array.appendBits(0xA5, 8).expect("eight bits fit");
    array.appendBits(0x0F, 8).expect("eight bits fit");
    array.appendBits(0x81, 8).expect("eight bits fit");
    let mut bytes = vec![0x11u8; 5];
    array.toBytes(0, &mut bytes, 1, 3);
    assert_eq!(bytes, vec![0x11, 0xA5, 0x0F, 0x81, 0x11]);
    let mut shifted = vec![0u8; 2];
    array.toBytes(4, &mut shifted, 0, 2);
    assert_eq!(shifted, vec![0x50, 0xF8]);
    let mut none = vec![7u8];
    array.toBytes(24, &mut none, 1, 0);
    assert_eq!(none, vec![7]);
}

#[test]
fn reverse_reverses_every_size() {
    for size in 0..=100usize {
        let mut bits = Vec::new();
        for i in 0..size {
            bits.push((i * 7 + i / 3) % 5 < 2);
        }
        let mut array = array_of(&bits);
        array.reverse();
        assert_eq!(array.getSize(), size);
        for i in 0..size {
            assert_eq!(array.get(i), bits[size - 1 - i]);
        }
        array.reverse();
        assert_eq!(bits_of(&array), bits);
    }
}

#[test]
fn reverse_does_not_read_behind_the_size() {
    let mut array = BitArray::with_initial_values(vec![0xffff_fff1], 4);
    array.reverse();
    assert_eq!(bits_of(&array), vec![false, false, false, true]);
}

#[test]
fn text_marks_groups_of_eight() {
    let mut array = BitArray::new();
    assert_eq!(array.toString(), "");
    array.appendBits(0b1010_0000_11, 10).expect("ten bits fit");
    assert_eq!(array.toString(), " X.X..... XX");
}

#[test]
fn equal_arrays_hold_the_same_bits() {
    let grown = array_of(&[true, false, true]);
    let packed = BitArray::with_initial_values(vec![0xffff_fff5], 3);
    assert_eq!(grown, packed);
    assert_ne!(grown, array_of(&[true, false, false]));
    assert_ne!(grown, array_of(&[true, false, true, false]));
    let copy = grown.clone();
    assert_eq!(copy, grown);
    assert_eq!(copy.getBitArray(), grown.getBitArray());
}

#[test]
fn messages_tell_the_failures_apart() {
    assert_eq!(
        IllegalArgumentException::RangeOutOfBounds.message(),
        "end < start || start < 0 || end > self.size"
    );
    assert_eq!(
        IllegalArgumentException::NumBitsOutOfRange.message(),
        "Num bits must be between 0 and 32"
    );
    assert_eq!(IllegalArgumentException::SizesDontMatch.message(), "Sizes don't match");
    assert_eq!(
        IllegalArgumentException::DimensionsNotPositive.message(),
        "Both dimensions must be greater than 0"
    );
    assert_eq!(
        IllegalArgumentException::DimensionsTooLarge.message(),
        "Both dimensions must fit in memory"
    );
    assert_eq!(
        IllegalArgumentException::RowLengthsDontMatch.message(),
        "row lengths do not match"
    );
    assert_eq!(
        IllegalArgumentException::IllegalCharacter.message(),
        "illegal character encountered"
    );
    assert_eq!(
        IllegalArgumentException::RegionEmpty.message(),
        "Height and width must be at least 1"
    );
    assert_eq!(
        IllegalArgumentException::RegionOutOfBounds.message(),
        "The region must fit inside the matrix"
    );
    assert_eq!(
        IllegalArgumentException::MatrixDimensionsDontMatch.message(),
        "input matrix dimensions do not match"
    );
    assert_eq!(
        IllegalArgumentException::BadRotation.message(),
        "degrees must be a multiple of 0, 90, 180, or 270"
    );
}
