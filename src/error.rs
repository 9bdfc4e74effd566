use vstd::prelude::*;

verus! {

/// Why an entropy estimate could not be produced.
#[derive(Debug, Clone, Copy, PartialEq, Eq, Structural)]
pub enum EntropyError {
    /// The waveform is too short for the requested embedding dimension.
    InsufficientData,
    /// No template pair matched at embedding `m` or `m + 1`.
    DegenerateMatch,
    /// The subject's records could not be read as waveforms.
    MalformedInput,
    /// The exact intermediate quantities do not fit in 128 bits.
    TooLarge,
}

} // verus!
