//! Error handling for the codec.

use vstd::prelude::*;

verus! {

/// Error type used for all errors produced by this crate.
///
/// `Io` stands for a failure of the underlying byte source: in this library
/// every source is an in-memory buffer, so an `Io` error means that the input
/// ended before the format said it would.
///
/// `Parse` stands for a semantic failure of the sparse format (bad magic,
/// wrong version, wrong block or header size, unknown chunk type, checksum
/// mismatch) and carries a message naming the offending field.
#[derive(Debug, Clone, PartialEq)]
pub enum Error {
    /// The input ended before the format said it would.
    Io,
    /// Error during sparse file parsing.
    Parse(String),
}

} // verus!
