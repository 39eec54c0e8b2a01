//! Tools for assembler source files.

pub mod format;
