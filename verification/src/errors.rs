use vstd::prelude::*;

verus! {

/// The failures that block construction, decoding and mining can report.
#[derive(Clone, Copy, Debug, PartialEq, Eq, Structural)]
pub enum BlockError {
    /// Malformed or schema-mismatched bytes were handed to deserialization.
    DecodeError,
    /// The system clock could not supply a timestamp at or after the epoch.
    ClockError,
    /// The nonce space was exhausted without finding a qualifying hash.
    MiningExhausted,
}

} // verus!
