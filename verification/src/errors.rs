//! Errors reported by the index.

use vstd::prelude::*;

verus! {

/// What an index operation can report to its caller.
#[derive(Debug, Clone, Copy, PartialEq, Eq, Structural)]
pub enum LshError {
    /// The banding does not fit the signature length it was meant for.
    InvalidParams { bands: usize, rows: usize, sig_len: usize },
    /// A signature holds `sig_len` values where the banding reads `need`.
    ShortSignature { sig_len: usize, need: usize },
}

} // verus!
