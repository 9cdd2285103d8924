//! The ways in which an operation of this library can be refused.

use vstd::prelude::*;

verus! {

/// A violated precondition of one of the coding operations. Each one is
/// deterministic: the same input is refused in the same way every time, and
/// no partial output accompanies it.
#[derive(Debug, Clone, Copy, PartialEq, Eq, Structural)]
pub enum HuffmanError {
    /// A tree was requested for a frequency table without symbols.
    EmptyFrequencyTable,
    /// The data to encode holds a symbol that the codebook has no code for.
    UnknownSymbol,
    /// A bit sequence whose length is no multiple of 8 was to be packed.
    UnalignedBitLength,
    /// The bits to decode strictly break off in the middle of a code.
    IncompleteCode,
}

} // verus!
