pub mod bit_array;
pub mod bit_matrix;
pub mod detector;
pub mod detector_result;
pub mod string_utils;
pub mod text;
pub mod word;
