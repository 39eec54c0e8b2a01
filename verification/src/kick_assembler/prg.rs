//! A program as KickAssembler writes it: a load address, then the bytes.
use vstd::prelude::*;

verus! {

/// A program.
pub struct Prg {
    /// Address.
    pub address: u16,
    /// Contents.
    pub contents: Vec<u8>,
}

/// The little endian value of two bytes.
pub open spec fn le_value(lo: u8, hi: u8) -> u16 {
    (lo + 256 * hi) as u16
}

impl Prg {
    /// The program held in the bytes of a `.prg` file: the first two bytes
    /// are the load address, little endian, the rest is loaded there. A file
    /// shorter than two bytes holds no program.
    pub fn from_file_bytes(bytes: Vec<u8>) -> (p: Option<Prg>)
        ensures
            bytes@.len() < 2 <==> p is None,
            p matches Some(p) ==> p.address == le_value(bytes@[0], bytes@[1]) && p.contents@
                == bytes@.skip(2),
    {
        if bytes.len() < 2 {
            return None;
        }
        let address = bytes[0] as u16 + 256 * (bytes[1] as u16);
        let contents = crate::text::copy_range(bytes.as_slice(), 2, bytes.len());
        proof {
            assert(contents@ =~= bytes@.skip(2));
        }
        Some(Prg { address, contents })
    }
}

} // verus!
