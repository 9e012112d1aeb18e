pub mod monochrome_rectangle_detector;
