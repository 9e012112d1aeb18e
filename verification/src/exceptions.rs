//! The failures that the library reports.

use vstd::prelude::*;

verus! {

/// Why an argument was refused.
#[derive(Debug, Clone, Copy, PartialEq, Eq, Structural)]
pub enum IllegalArgumentException {
    /// A bit range that ends before it starts or reaches past the array.
    RangeOutOfBounds,
    /// More than 32 bits were to be appended from one word.
    NumBitsOutOfRange,
    /// Two bit arrays of different sizes were combined.
    SizesDontMatch,
    /// A matrix was asked for with a width or height of zero.
    DimensionsNotPositive,
    /// A matrix was asked for whose words cannot be counted in a `usize`.
    DimensionsTooLarge,
    /// Text rows of different lengths were to form one matrix.
    RowLengthsDontMatch,
    /// Text for a matrix holds something that is neither a set nor an unset
    /// cell nor a line break.
    IllegalCharacter,
    /// A region of width or height zero.
    RegionEmpty,
    /// A region that does not fit inside the matrix.
    RegionOutOfBounds,
    /// Two matrices of different dimensions were combined.
    MatrixDimensionsDontMatch,
    /// A rotation that is not a multiple of 90 degrees.
    BadRotation,
}

/// The failures of the readers and detectors.
#[derive(Debug, Clone, Copy, PartialEq, Eq, Structural)]
pub enum Exceptions {
    /// Nothing that could be decoded was found.
    NotFoundException,
    /// An argument was refused.
    IllegalArgumentException(IllegalArgumentException),
}

impl IllegalArgumentException {
    /// The text that describes the failure.
    pub fn message(&self) -> (text: String)
        ensures
            text@ == (match *self {
                IllegalArgumentException::RangeOutOfBounds =>
                    "end < start || start < 0 || end > self.size"@,
                IllegalArgumentException::NumBitsOutOfRange => "Num bits must be between 0 and 32"@,
                IllegalArgumentException::SizesDontMatch => "Sizes don't match"@,
                IllegalArgumentException::DimensionsNotPositive =>
                    "Both dimensions must be greater than 0"@,
                IllegalArgumentException::DimensionsTooLarge =>
                    "Both dimensions must fit in memory"@,
                IllegalArgumentException::RowLengthsDontMatch => "row lengths do not match"@,
                IllegalArgumentException::IllegalCharacter => "illegal character encountered"@,
                IllegalArgumentException::RegionEmpty => "Height and width must be at least 1"@,
                IllegalArgumentException::RegionOutOfBounds =>
                    "The region must fit inside the matrix"@,
                IllegalArgumentException::MatrixDimensionsDontMatch =>
                    "input matrix dimensions do not match"@,
                IllegalArgumentException::BadRotation =>
                    "degrees must be a multiple of 0, 90, 180, or 270"@,
            }),
    {
        match *self {
            IllegalArgumentException::RangeOutOfBounds =>
                "end < start || start < 0 || end > self.size".to_owned(),
            IllegalArgumentException::NumBitsOutOfRange =>
                "Num bits must be between 0 and 32".to_owned(),
            IllegalArgumentException::SizesDontMatch => "Sizes don't match".to_owned(),
            IllegalArgumentException::DimensionsNotPositive =>
                "Both dimensions must be greater than 0".to_owned(),
            IllegalArgumentException::DimensionsTooLarge =>
                "Both dimensions must fit in memory".to_owned(),
            IllegalArgumentException::RowLengthsDontMatch => "row lengths do not match".to_owned(),
            IllegalArgumentException::IllegalCharacter =>
                "illegal character encountered".to_owned(),
            IllegalArgumentException::RegionEmpty =>
                "Height and width must be at least 1".to_owned(),
            IllegalArgumentException::RegionOutOfBounds =>
                "The region must fit inside the matrix".to_owned(),
            IllegalArgumentException::MatrixDimensionsDontMatch =>
                "input matrix dimensions do not match".to_owned(),
            IllegalArgumentException::BadRotation =>
                "degrees must be a multiple of 0, 90, 180, or 270".to_owned(),
        }
    }
}

} // verus!
