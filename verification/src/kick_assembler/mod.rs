//! Tools for KickAssembler.

pub mod memory_map;
pub mod output;
pub mod prg;
pub mod symbols;

pub use output::Output;
pub use prg::Prg;
pub use symbols::Symbols;
