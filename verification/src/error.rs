//! Failure taxonomy for document assembly and rendering.

use vstd::prelude::*;

verus! {

/// Every failure a caller can see, as a closed set of kinds.
///
/// - `Validation`: an input value is out of range; caught before any asset
///   or output work is done.
/// - `AssetLoad`: a referenced image asset is missing or not decodable.
/// - `Encoding`: an internal serialization failure; never retried. The
///   verified renderer has no path that raises it; the kind stands for
///   the unverified writer around the library.
/// - `Io`: the destination is not writable. Produced only by the unverified
///   writer around this library; nothing in the library itself does I/O.
#[derive(Clone, Copy, Debug, PartialEq, Eq, Structural)]
pub enum PdfError {
    Validation,
    AssetLoad,
    Encoding,
    Io,
}

impl PdfError {
    /// A short label for the host boundary, which flattens every kind
    /// into one message string.
    pub fn label(&self) -> (r: &'static str)
        ensures
            self is Validation ==> r@ == "invalid input value"@,
            self is AssetLoad ==> r@ == "image asset missing or undecodable"@,
            self is Encoding ==> r@ == "internal encoding failure"@,
            self is Io ==> r@ == "destination not writable"@,
    {
        match self {
            PdfError::Validation => "invalid input value",
            PdfError::AssetLoad => "image asset missing or undecodable",
            PdfError::Encoding => "internal encoding failure",
            PdfError::Io => "destination not writable",
        }
    }
}

} // verus!
