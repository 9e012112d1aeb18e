pub mod qr_reader;
