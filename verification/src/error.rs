//! The failures that encoding and header handling can report.

use vstd::prelude::*;

verus! {

/// Errors that can occur during encoding or while reading a header.
#[derive(Debug, Clone, Copy, PartialEq, Eq, Structural)]
pub enum Error {
    /// Leading 4 magic bytes don't match.
    InvalidMagic { magic: u32 },
    /// Invalid image dimensions: empty, or more pixels than the format allows.
    InvalidImageDimensions { width: u16, height: u16 },
    /// Image dimensions are inconsistent with image buffer length.
    InvalidImageLength { size: usize, width: u16, height: u16 },
    /// A header without a data length was asked for its bytes.
    DataLengthNotSet,
    /// Output buffer is too small to fit the encoded image.
    OutputBufferTooSmall { size: usize, required: usize },
    /// Input buffer ended unexpectedly.
    UnexpectedBufferEnd,
    /// Invalid stream end marker.
    InvalidPadding,
}

} // verus!
