use rxing::common::bit_array::BitArray;
use rxing::common::bit_matrix::BitMatrix;
use rxing::exceptions::IllegalArgumentException;

fn matrix(width: u32, height: u32) -> BitMatrix {
    BitMatrix::new(width, height).expect("the dimensions are positive")
}

fn pattern(width: u32, height: u32) -> BitMatrix {
    let mut m = matrix(width, height);
    for y in 0..height {
        for x in 0..width {
            if (x * 3 + y * 5 + x * y) % 7 < 3 {
                m.set(x, y);
            }
        }
    }
    m
}

#[test]
fn new_matrix_is_clear() {
    let m = matrix(33, 5);
    assert_eq!(m.getWidth(), 33);
    assert_eq!(m.getHeight(), 5);
    assert_eq!(m.getRowSize(), 2);
    for y in 0..5 {
        for x in 0..33 {
            assert!(!m.get(x, y));
        }
    }
}

#[test]
fn new_refuses_empty_dimensions() {
    assert_eq!(BitMatrix::new(0, 5).err(), Some(IllegalArgumentException::DimensionsNotPositive));
    assert_eq!(BitMatrix::new(5, 0).err(), Some(IllegalArgumentException::DimensionsNotPositive));
    assert_eq!(
        BitMatrix::with_single_dimension(0).err(),
        Some(IllegalArgumentException::DimensionsNotPositive)
    );
    let square = BitMatrix::with_single_dimension(7).expect("the dimension is positive");
    assert_eq!(square.getWidth(), 7);
    assert_eq!(square.getHeight(), 7);
}

#[test]
fn set_unset_and_flip_one_cell() {
    let mut m = matrix(40, 3);
    m.set(35, 1);
    assert!(m.get(35, 1));
    assert!(!m.get(35, 0));
    assert!(!m.get(34, 1));
    assert!(!m.get(3, 1));
    m.flip(35, 1);
    assert!(!m.get(35, 1));
    m.flip(0, 2);
    assert!(m.get(0, 2));
    m.unset(0, 2);
    m.unset(1, 2);
    assert_eq!(m, matrix(40, 3));
}

#[test]
fn flip_all_flips_every_cell() {
    let mut m = pattern(35, 4);
    let before = m.clone();
    m.flip_all();
    for y in 0..4 {
        for x in 0..35 {
            assert_eq!(m.get(x, y), !before.get(x, y));
        }
    }
    m.flip_all();
    assert_eq!(m, before);
}

#[test]
fn clear_clears_every_cell() {
    let mut m = pattern(35, 4);
    m.clear();
    assert_eq!(m, matrix(35, 4));
}

#[test]
fn xor_flips_where_the_mask_is_set() {
    let mut m = pattern(35, 4);
    let before = m.clone();
    let mut mask = matrix(35, 4);
    mask.set(34, 3);
    mask.set(0, 0);
    assert_eq!(m.xor(&mask), Ok(()));
    for y in 0..4 {
        for x in 0..35 {
            assert_eq!(m.get(x, y), before.get(x, y) != mask.get(x, y));
        }
    }
    assert_eq!(m.xor(&matrix(35, 5)), Err(IllegalArgumentException::MatrixDimensionsDontMatch));
    assert_eq!(m.xor(&matrix(34, 4)), Err(IllegalArgumentException::MatrixDimensionsDontMatch));
}

#[test]
fn set_region_sets_a_rectangle() {
    let mut m = matrix(40, 10);
    assert_eq!(m.setRegion(30, 2, 5, 3), Ok(()));
    for y in 0..10 {
        for x in 0..40 {
            assert_eq!(m.get(x, y), (30..35).contains(&x) && (2..5).contains(&y));
        }
    }
    assert_eq!(m.setRegion(0, 0, 40, 10), Ok(()));
    assert_eq!(m.getEnclosingRectangle(), Some(vec![0, 0, 40, 10]));
}

#[test]
fn set_region_refuses_bad_regions() {
    let mut m = matrix(40, 10);
    assert_eq!(m.setRegion(0, 0, 0, 1), Err(IllegalArgumentException::RegionEmpty));
    assert_eq!(m.setRegion(0, 0, 1, 0), Err(IllegalArgumentException::RegionEmpty));
    assert_eq!(m.setRegion(36, 0, 5, 1), Err(IllegalArgumentException::RegionOutOfBounds));
    assert_eq!(m.setRegion(0, 9, 1, 2), Err(IllegalArgumentException::RegionOutOfBounds));
    assert_eq!(
        m.setRegion(u32::MAX, 0, 2, 1),
        Err(IllegalArgumentException::RegionOutOfBounds)
    );
    assert_eq!(m, matrix(40, 10));
}

#[test]
fn get_row_copies_a_row() {
    let m = pattern(35, 4);
    let row = m.getRow(2, BitArray::new());
    assert_eq!(row.getSize(), 35);
    for x in 0..35u32 {
        assert_eq!(row.get(x as usize), m.get(x, 2));
    }
    let mut wide = BitArray::with_size(70);
    wide.set(69);
    let reused = m.getRow(1, wide);
    assert_eq!(reused.getSize(), 70);
    for x in 0..35u32 {
        assert_eq!(reused.get(x as usize), m.get(x, 1));
    }
    assert!(!reused.get(69));
}

#[test]
fn set_row_replaces_a_row() {
    let mut m = matrix(35, 3);
    let mut row = BitArray::with_size(35);
    row.set(0);
    row.set(34);
    m.setRow(1, &row);
    for y in 0..3 {
        for x in 0..35 {
            assert_eq!(m.get(x, y), y == 1 && (x == 0 || x == 34));
        }
    }
}

#[test]
fn rotate_a_quarter_turn_counterclockwise() {
    let mut m = matrix(3, 2);
    m.set(0, 0);
    m.set(2, 1);
    assert_eq!(m.rotate90(), Ok(()));
    assert_eq!(m.getWidth(), 2);
    assert_eq!(m.getHeight(), 3);
    assert_eq!(m.toString("X", "."), ".X\n..\nX.\n");
}

#[test]
fn rotate_a_half_turn() {
    let mut m = matrix(3, 2);
    m.set(0, 0);
    m.set(1, 1);
    m.rotate180();
    assert_eq!(m.toString("X", "."), ".X.\n..X\n");
}

#[test]
fn rotations_give_the_matrix_back() {
    for (width, height) in [(1u32, 1u32), (3, 2), (32, 33), (35, 4), (64, 5), (7, 70)] {
        let start = pattern(width, height);

        let mut m = start.clone();
        assert_eq!(m.rotate(0), Ok(()));
        assert_eq!(m, start);
        assert_eq!(m.rotate(360), Ok(()));
        assert_eq!(m, start);

        assert_eq!(m.rotate(90), Ok(()));
        assert_eq!(m.getWidth(), height);
        assert_eq!(m.getHeight(), width);
        assert_eq!(m.rotate(270), Ok(()));
        assert_eq!(m, start);

        assert_eq!(m.rotate(270), Ok(()));
        assert_eq!(m.rotate(90), Ok(()));
        assert_eq!(m, start);

        assert_eq!(m.rotate(180), Ok(()));
        assert_eq!(m.rotate(180), Ok(()));
        assert_eq!(m, start);

        for _ in 0..4 {
            assert_eq!(m.rotate(90), Ok(()));
        }
        assert_eq!(m, start);

        let mut twice = start.clone();
        assert_eq!(twice.rotate(90), Ok(()));
        assert_eq!(twice.rotate(90), Ok(()));
        let mut half = start.clone();
        half.rotate180();
        assert_eq!(twice, half);
    }
}

#[test]
fn rotate_moves_each_cell() {
    let start = pattern(35, 4);
    let mut quarter = start.clone();
    assert_eq!(quarter.rotate(90), Ok(()));
    let mut half = start.clone();
    assert_eq!(half.rotate(180), Ok(()));
    let mut three = start.clone();
    assert_eq!(three.rotate(270), Ok(()));
    for y in 0..4u32 {
        for x in 0..35u32 {
            assert_eq!(quarter.get(y, 34 - x), start.get(x, y));
            assert_eq!(half.get(34 - x, 3 - y), start.get(x, y));
            assert_eq!(three.get(3 - y, x), start.get(x, y));
        }
    }
}

#[test]
fn rotate_refuses_other_angles() {
    let mut m = pattern(5, 4);
    let before = m.clone();
    assert_eq!(m.rotate(45), Err(IllegalArgumentException::BadRotation));
    assert_eq!(m.rotate(91), Err(IllegalArgumentException::BadRotation));
    assert_eq!(m, before);
    assert_eq!(m.rotate(450), Ok(()));
    let mut quarter = before.clone();
    assert_eq!(quarter.rotate90(), Ok(()));
    assert_eq!(m, quarter);
}

#[test]
fn enclosing_rectangle_of_set_cells() {
    let mut m = matrix(70, 10);
    assert_eq!(m.getEnclosingRectangle(), None);
    assert_eq!(m.getTopLeftOnBit(), None);
    assert_eq!(m.getBottomRightOnBit(), None);
    m.set(40, 3);
    assert_eq!(m.getEnclosingRectangle(), Some(vec![40, 3, 1, 1]));
    assert_eq!(m.getTopLeftOnBit(), Some(vec![40, 3]));
    assert_eq!(m.getBottomRightOnBit(), Some(vec![40, 3]));
    m.set(5, 7);
    m.set(69, 5);
    assert_eq!(m.getEnclosingRectangle(), Some(vec![5, 3, 65, 5]));
    assert_eq!(m.getTopLeftOnBit(), Some(vec![40, 3]));
    assert_eq!(m.getBottomRightOnBit(), Some(vec![5, 7]));
    m.set(6, 7);
    m.set(2, 3);
    assert_eq!(m.getTopLeftOnBit(), Some(vec![2, 3]));
    assert_eq!(m.getBottomRightOnBit(), Some(vec![6, 7]));
}

#[test]
fn bounding_box_does_not_read_behind_the_width() {
    let mut m = matrix(35, 3);
    let mut row = BitArray::with_initial_values(vec![0, 0xffff_fff0], 64);
    row.set(1);
    m.setRow(1, &row);
    assert_eq!(m.getEnclosingRectangle(), Some(vec![1, 1, 1, 1]));
    assert_eq!(m.getTopLeftOnBit(), Some(vec![1, 1]));
    assert_eq!(m.getBottomRightOnBit(), Some(vec![1, 1]));
    let mut only_spare = matrix(35, 3);
    only_spare.setRow(2, &BitArray::with_initial_values(vec![0, 0xffff_fff8], 64));
    assert_eq!(only_spare.getEnclosingRectangle(), None);
    assert_eq!(only_spare, matrix(35, 3));
}

#[test]
fn parse_bools_reads_rows() {
    let image = vec![vec![true, false, false], vec![false, true, true]];
    let m = BitMatrix::parse_bools(&image);
    assert_eq!(m.getWidth(), 3);
    assert_eq!(m.getHeight(), 2);
    assert_eq!(m.toString("X", "."), "X..\n.XX\n");
}

#[test]
fn parse_reads_text() {
    let m = BitMatrix::parse("X .\n. X\n", "X ", ". ").err();
    assert_eq!(m, Some(IllegalArgumentException::IllegalCharacter));
    let m = BitMatrix::parse("X . \n. X \n", "X ", ". ").expect("the text is a matrix");
    assert_eq!(m.getWidth(), 2);
    assert_eq!(m.getHeight(), 2);
    assert!(m.get(0, 0) && !m.get(1, 0) && !m.get(0, 1) && m.get(1, 1));
    let same = BitMatrix::parse("\r\n10\r\n\r\n01", "1", "0").expect("the text is a matrix");
    assert_eq!(same, m);
}

#[test]
fn parse_refuses_bad_text() {
    assert_eq!(
        BitMatrix::parse("10\n1\n", "1", "0").err(),
        Some(IllegalArgumentException::RowLengthsDontMatch)
    );
    assert_eq!(
        BitMatrix::parse("10\n101", "1", "0").err(),
        Some(IllegalArgumentException::RowLengthsDontMatch)
    );
    assert_eq!(
        BitMatrix::parse("10\n1x\n", "1", "0").err(),
        Some(IllegalArgumentException::IllegalCharacter)
    );
    assert_eq!(
        BitMatrix::parse("1\n11\nx", "1", "0").err(),
        Some(IllegalArgumentException::RowLengthsDontMatch)
    );
    assert_eq!(
        BitMatrix::parse("", "1", "0").err(),
        Some(IllegalArgumentException::DimensionsNotPositive)
    );
    assert_eq!(
        BitMatrix::parse("\n\n", "1", "0").err(),
        Some(IllegalArgumentException::DimensionsNotPositive)
    );
    assert_eq!(
        BitMatrix::parse("10", "", "0").err(),
        Some(IllegalArgumentException::IllegalCharacter)
    );
}

#[test]
fn text_and_parse_agree() {
    let m = pattern(35, 4);
    let text = m.toString("@@", "-");
    let back = BitMatrix::parse(&text, "@@", "-").expect("the text is a matrix");
    assert_eq!(back, m);
    assert_eq!(matrix(2, 1).display(), "    \n");
    let mut one = matrix(2, 2);
    one.set(1, 0);
    assert_eq!(one.display(), "  X \n    \n");
}

#[test]
fn equal_matrices_have_the_same_cells() {
    let m = pattern(35, 4);
    let mut other = pattern(35, 4);
    assert_eq!(m, other);
    other.flip(34, 3);
    assert_ne!(m, other);
    assert_ne!(matrix(3, 2), matrix(2, 3));
}
