//! One decoded data character of an RSS symbol.

use vstd::prelude::*;

verus! {

/// A data character: the number it stands for and what it adds to the
/// checksum of its symbol.
#[derive(Debug, Clone, Copy, PartialEq, Eq, Structural)]
pub struct DataCharacter {
    pub value: i32,
    pub checksum_portion: u32,
}

impl DataCharacter {
    /// The character that stands for `value` and adds `checksumPortion`
    /// to the checksum.
    pub fn new(value: i32, checksumPortion: u32) -> (r: Self)
        ensures
            r.value == value,
            r.checksum_portion == checksumPortion,
    {
        Self { value, checksum_portion: checksumPortion }
    }

    /// The number that the character stands for.
    pub fn getValue(&self) -> (r: i32)
        ensures
            r == self.value,
    {
        self.value
    }

    /// What the character adds to the checksum of its symbol.
    pub fn getChecksumPortion(&self) -> (r: u32)
        ensures
            r == self.checksum_portion,
    {
        self.checksum_portion
    }
}

} // verus!
