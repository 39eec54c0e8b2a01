//! Tools for building Atari 8-bit programs: xex files, KickAssembler output and
//! assembler source formatting.

pub mod text;

pub mod assembler;
pub mod kick_assembler;
pub mod xex;
