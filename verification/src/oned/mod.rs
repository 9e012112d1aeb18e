pub mod one_d_reader;
pub mod rss;
