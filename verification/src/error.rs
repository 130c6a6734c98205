use vstd::prelude::*;

verus! {

/// The ways in which coding can fail.
#[derive(Clone, Copy, Debug, PartialEq, Eq, Structural)]
pub enum CodecError {
    /// The encoder met a symbol for which the model holds no interval.
    UnknownSymbol,
    /// The model reports a total frequency above a quarter of the coding range.
    TotalFrequencyOverflow,
    /// The code value read by the decoder lies in no symbol's sub-interval.
    MalformedStream,
    /// The decoder would emit more symbols than the model's message length.
    ModelDesync,
    /// Narrowing by the interval handed over would not leave a proper,
    /// non-empty part of the current range.
    RangeCollapse,
}

} // verus!
