//! A piece of data with the address it loads at.
use crate::kick_assembler::{Output, Prg};
use vstd::prelude::*;

verus! {

/// A segment of data to be added to the xex file.
pub trait Segment {
    /// The address, as a value.
    spec fn spec_address(&self) -> u16;

    /// The contents, as values.
    spec fn spec_contents(&self) -> Seq<u8>;

    /// Get the address of this segment.
    fn address(&self) -> (r: u16)
        ensures
            r == self.spec_address(),
    ;

    /// Get the contents of this segment.
    fn contents(&self) -> (r: &[u8])
        ensures
            r@ == self.spec_contents(),
    ;
}

impl Segment for Prg {
    open spec fn spec_address(&self) -> u16 {
        self.address
    }

    open spec fn spec_contents(&self) -> Seq<u8> {
        self.contents@
    }

    fn address(&self) -> (r: u16) {
        self.address
    }

    fn contents(&self) -> (r: &[u8]) {
        self.contents.as_slice()
    }
}

impl<'a> Segment for (u16, &'a [u8]) {
    open spec fn spec_address(&self) -> u16 {
        self.0
    }

    open spec fn spec_contents(&self) -> Seq<u8> {
        self.1@
    }

    fn address(&self) -> (r: u16) {
        self.0
    }

    fn contents(&self) -> (r: &[u8]) {
        self.1
    }
}

impl<'a, const N: usize> Segment for (u16, &'a [u8; N]) {
    open spec fn spec_address(&self) -> u16 {
        self.0
    }

    open spec fn spec_contents(&self) -> Seq<u8> {
        self.1@
    }

    fn address(&self) -> (r: u16) {
        self.0
    }

    fn contents(&self) -> (r: &[u8]) {
        self.1.as_slice()
    }
}

impl Segment for Output {
    open spec fn spec_address(&self) -> u16 {
        self.prg.address
    }

    open spec fn spec_contents(&self) -> Seq<u8> {
        self.prg.contents@
    }

    fn address(&self) -> (r: u16) {
        // forward to Prg
        self.prg.address()
    }

    fn contents(&self) -> (r: &[u8]) {
        // forward to Prg
        self.prg.contents()
    }
}

} // verus!
