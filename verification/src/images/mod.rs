pub mod bmp;
pub mod common;
