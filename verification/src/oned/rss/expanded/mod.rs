pub mod bit_array_builder;
pub mod character_decoder;
pub mod expanded_pair;
pub mod expanded_row;
pub mod finder_search;
pub mod row_history;
pub mod rss_expanded_reader;
pub mod tables;
