//! Constants of the wire format.

use vstd::prelude::*;

verus! {

/// Tag of a chunk that refers to a slot of the colour cache (`00xxxxxx`).
pub const QOI_OP_INDEX: u8 = 0x00;

/// Tag of a chunk that packs three two-bit channel differences (`01xxxxxx`).
pub const QOI_OP_DIFF: u8 = 0x40;

/// Tag of a chunk that packs a six-bit green difference (`10xxxxxx`).
pub const QOI_OP_LUMA: u8 = 0x80;

/// Tag of a chunk that repeats the previous pixel (`11xxxxxx`).
pub const QOI_OP_RUN: u8 = 0xc0;

/// Tag of a chunk that carries the red, green and blue channels verbatim.
pub const QOI_OP_RGB: u8 = 0xfe;

/// Tag of a chunk that carries all four channels verbatim.
pub const QOI_OP_RGBA: u8 = 0xff;

/// Number of bytes of a serialized header.
pub const QOI_HEADER_SIZE: usize = 12;

/// Number of bytes of the end marker.
pub const QOI_PADDING_SIZE: usize = 8;

/// The end marker: seven zero bytes and a one.
pub const QOI_PADDING: [u8; 8] = [0x00, 0x00, 0x00, 0x00, 0x00, 0x00, 0x00, 0x01];

/// The four magic bytes `qoif`, read as a little-endian word.
pub const QOI_MAGIC: u32 = 0x6669_6f71;

/// Largest number of pixels an image may have.
pub const QOI_PIXELS_MAX: usize = 400_000_000;

/// Longest run of equal pixels that one chunk can express.
pub const QOI_RUN_MAX: u8 = 62;

} // verus!
