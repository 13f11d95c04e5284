//! Errors of the container codec, the HEX codec and the patch engine.
use vstd::prelude::*;

verus! {

/// A structural defect of a container's records.
#[derive(Debug, Clone, Copy, PartialEq, Eq, Structural)]
pub enum FormatError {
    /// The header's signature field is not the expected one; `signature` holds
    /// its 16 bytes, the first in the lowest byte (`signature.to_le_bytes()`).
    BadSignature { signature: u128 },
    /// The header declares a version that this layout does not accept.
    UnsupportedVersion { found: u16, expected: u16 },
}

/// Why a patch was refused before anything was written.
#[derive(Debug, Clone, Copy, PartialEq, Eq, Structural)]
pub enum MismatchError {
    /// The identity segment and the HEX data for it differ in length.
    IdentitySize { bin_size: u16, hex_len: usize },
    /// The identity segment and the HEX data for it differ in content.
    IdentityContent,
    /// The HEX data for a segment holds fewer bytes than the segment.
    ShortCoverage { segment: u16, hex_len: usize, bin_size: u16 },
}

/// The errors of this library.
#[derive(Debug)]
pub enum Bin2HexError {
    /// The data ended inside a record or a payload that starts at `offset`.
    UnexpectedEof { offset: usize },
    /// A record violates the container format.
    InvalidFormat(FormatError),
    /// The HEX text could not be produced.
    IntelHexWrite(ihex::WriterError),
    /// The HEX text could not be parsed.
    IntelHexRead(ihex::ReaderError),
    /// The HEX text holds more records than can be decoded in memory.
    HexTooLarge { records: usize },
    /// The HEX data and the container disagree; nothing was written.
    SegmentMismatch(MismatchError),
}

/// Relies on ihex::WriterError being a plain error value.
#[verifier::external_type_specification]
#[verifier::external_body]
pub struct ExWriterError(ihex::WriterError);

/// Relies on ihex::ReaderError being a plain error value.
#[verifier::external_type_specification]
#[verifier::external_body]
pub struct ExReaderError(ihex::ReaderError);

} // verus!
