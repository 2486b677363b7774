use vstd::prelude::*;

verus! {

/// The ways an operation of the ledger can fail.
#[derive(Clone, Copy, Debug, PartialEq, Eq, Structural)]
pub enum ChainError {
    /// Bytes that are not the encoding of a value.
    Codec,
    /// The persistent store failed or is unavailable.
    Storage,
    /// A parameter or an identifier is out of its allowed range.
    Configuration,
    /// Every nonce was tried and none met the difficulty.
    NonceExhausted,
}

} // verus!
