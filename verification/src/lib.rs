//! Printable-text codecs for binary data: base32 and base64 (bit-grouped
//! alphabets of width 5 and 6) and base85 (a positional base-85 scheme with a
//! zero-run compression symbol).

pub mod base32;
pub mod base64;
pub mod base85;
pub mod bitgroup;
pub mod radix;

mod text;

use vstd::prelude::*;

verus! {

/// Errors a codec can report to its caller.
///
/// `DecodingError` is the only recoverable failure: a decoder met a character
/// outside its alphabet, or a compression symbol in an invalid position.
/// `OutOfBounds` marks an internal contract violation and is never produced by
/// the verified code paths.
#[derive(Clone, Copy, Debug, PartialEq, Eq)]
pub enum MyError {
    OutOfBounds,
    DecodingError,
}

} // verus!
