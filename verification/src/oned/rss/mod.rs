pub mod abstract_rss_reader;
pub mod data_character;
pub mod expanded;
pub mod finder_pattern;
pub mod rss_utils;
