//! The descriptor of the Hamming variant in use, and the decoder's error type.

use vstd::prelude::*;

verus! {

/// Immutable descriptor of one extended Hamming code variant.
///
/// Only the (16,11) SECDED variant is supported: 11 information bits per
/// codeword, 4 Hamming check bits at the power-of-two positions 1, 2, 4 and 8,
/// and one overall parity bit at position 0, so that
/// `total_bits == data_bits + 4 + 1`.
#[derive(Clone, Copy, PartialEq, Eq, Structural, Debug)]
pub struct Code {
    /// Number of information bits per codeword.
    pub data_bits: u32,
    /// Codeword length in bits, check and overall parity bits included.
    pub total_bits: u32,
}

impl Code {
    /// The descriptor is the supported (16,11) extended Hamming variant.
    pub open spec fn wf(self) -> bool {
        self.data_bits == 11 && self.total_bits == 16
    }

    /// The extended Hamming(16,11) code descriptor.
    pub fn eh16_11() -> (c: Code)
        ensures
            c.wf(),
            c.data_bits == 11,
            c.total_bits == 16,
    {
        Code { data_bits: 11, total_bits: 16 }
    }
}

/// Why a whole-message decode failed.
#[derive(Clone, Copy, PartialEq, Eq, Structural, Debug)]
pub enum DecodeError {
    /// Some codeword showed a detected-but-uncorrectable double-bit error.
    Uncorrectable,
}

} // verus!
