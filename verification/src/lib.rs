//! Barcode recognition on bits: packed bit arrays and bit matrices, a
//! detector of rectangular regions, and the reading of RSS Expanded symbols
//! from the rows of an image, with every function verified against its
//! contract.

#![allow(non_snake_case)]
#![allow(non_camel_case_types)]
#![allow(unused_imports)]

pub mod barcode_format;
pub mod common;
pub mod exceptions;
pub mod oned;
pub mod qrcode;
pub mod result_point;
