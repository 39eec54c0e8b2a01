//! What a KickAssembler run gives.
use crate::kick_assembler::prg::Prg;
use crate::kick_assembler::symbols::Symbols;
use vstd::prelude::*;

verus! {

/// Result of running the KickAssembler.
pub struct Output {
    /// The compiled program.
    pub prg: Prg,
    /// The symbols.
    pub symbols: Symbols,
}

} // verus!
