//! Tools for xex files.

pub mod segment;
pub mod xex_file;

pub use segment::Segment;
pub use xex_file::XexFile;
