//! The twelve bytes in front of every encoded image.

use crate::consts::{QOI_HEADER_SIZE, QOI_MAGIC, QOI_PADDING_SIZE, QOI_PIXELS_MAX};
use crate::encode::{encode_max_len, max_len_of};
use crate::error::Error;
use vstd::prelude::*;

verus! {

/// Image header: dimensions and the length of the encoded data.
///
/// A valid header has a width and a height that are not zero, and at most
/// 400 million pixels.
#[derive(Copy, Clone, Debug, PartialEq, Eq, Hash)]
pub struct Header {
    /// Image width in pixels
    pub width: u16,
    /// Image height in pixels
    pub height: u16,
    /// Length of the encoded chunks in bytes, once it is known
    pub length: Option<u32>,
}

/// Whether an image may be `width` pixels wide and `height` pixels high.
pub open spec fn valid_dimensions(width: u16, height: u16) -> bool {
    width != 0 && height != 0 && width * height <= QOI_PIXELS_MAX
}

/// The number `x` as a `usize`, or the largest `usize` if `x` is beyond it.
pub open spec fn saturated(x: int) -> usize {
    if x > usize::MAX {
        usize::MAX
    } else {
        x as usize
    }
}

/// The two bytes of `x`, least significant first.
pub open spec fn le_bytes16(x: u16) -> Seq<u8> {
    seq![(x % 256) as u8, (x / 256) as u8]
}

/// The four bytes of `x`, least significant first.
pub open spec fn le_bytes32(x: u32) -> Seq<u8> {
    seq![
        (x % 256) as u8,
        (x / 0x100 % 256) as u8,
        (x / 0x1_0000 % 256) as u8,
        (x / 0x100_0000) as u8,
    ]
}

/// The number whose bytes, least significant first, are the first two of `s`.
pub open spec fn le_value16(s: Seq<u8>) -> u16 {
    (s[0] + 0x100 * s[1]) as u16
}

/// The number whose bytes, least significant first, are the first four of `s`.
pub open spec fn le_value32(s: Seq<u8>) -> u32 {
    (s[0] + 0x100 * s[1] + 0x1_0000 * s[2] + 0x100_0000 * s[3]) as u32
}

/// The serialized form of a header: the magic bytes `qoif`, then width,
/// height and data length, each least significant byte first.
pub open spec fn header_bytes(width: u16, height: u16, length: u32) -> Seq<u8> {
    le_bytes32(QOI_MAGIC) + le_bytes16(width) + le_bytes16(height) + le_bytes32(length)
}

/// What the first twelve bytes of `data` say as a header, or why they are
/// none.
pub open spec fn parsed_header(data: Seq<u8>) -> Result<Header, Error> {
    if data.len() < QOI_HEADER_SIZE {
        Err(Error::UnexpectedBufferEnd)
    } else if le_value32(data.subrange(0, 4)) != QOI_MAGIC {
        Err(Error::InvalidMagic { magic: le_value32(data.subrange(0, 4)) })
    } else {
        let width = le_value16(data.subrange(4, 6));
        let height = le_value16(data.subrange(6, 8));
        if valid_dimensions(width, height) {
            Ok(Header { width, height, length: Some(le_value32(data.subrange(8, 12))) })
        } else {
            Err(Error::InvalidImageDimensions { width, height })
        }
    }
}

/// The product of two 16-bit numbers fits in 32 bits.
proof fn lemma_area_bound(width: u16, height: u16)
    ensures
        0 <= width * height <= 0xfffe_0001,
{
    assert(0 <= width * height <= 0xffff * 0xffff) by (nonlinear_arith)
        requires
            0 <= width <= 0xffff,
            0 <= height <= 0xffff,
    ;
}

/// The product of `width` and `height`.
fn area(width: u16, height: u16) -> (n: u64)
    ensures
        n == width * height,
        n <= 0xfffe_0001,
{
    proof {
        lemma_area_bound(width, height);
    }
    width as u64 * height as u64
}

/// The number `x` as a `usize`, or the largest `usize` if `x` is beyond it.
pub(crate) fn saturate(x: u64) -> (n: usize)
    ensures
        n == saturated(x as int),
{
    if x > usize::MAX as u64 {
        usize::MAX
    } else {
        x as usize
    }
}

impl Header {
    /// Creates a new header and validates image dimensions.
    pub fn try_new(width: u16, height: u16, length: Option<u32>) -> (r: Result<Header, Error>)
        ensures
            valid_dimensions(width, height) ==> r == Ok::<Header, Error>(
                Header { width, height, length },
            ),
            !valid_dimensions(width, height) ==> r == Err::<Header, Error>(
                Error::InvalidImageDimensions { width, height },
            ),
    {
        let n_pixels = area(width, height);
        if n_pixels == 0 || n_pixels > QOI_PIXELS_MAX as u64 {
            assert(width * height == 0 ==> width == 0 || height == 0) by (nonlinear_arith);
            return Err(Error::InvalidImageDimensions { width, height });
        }
        Ok(Header { width, height, length })
    }

    /// Whether the dimensions of this header are those of an image.
    pub open spec fn valid(&self) -> bool {
        valid_dimensions(self.width, self.height)
    }

    /// Serializes the header into a bytes array.
    pub fn encode(&self) -> (r: Result<[u8; 12], Error>)
        ensures
            self.length is None ==> r == Err::<[u8; 12], Error>(Error::DataLengthNotSet),
            self.length matches Some(length) ==> r is Ok && r->Ok_0@ == header_bytes(
                self.width,
                self.height,
                length,
            ),
    {
        let length = match self.length {
            Some(length) => length,
            None => {
                return Err(Error::DataLengthNotSet);
            },
        };
        let out = [
            (QOI_MAGIC % 256) as u8,
            (QOI_MAGIC / 0x100 % 256) as u8,
            (QOI_MAGIC / 0x1_0000 % 256) as u8,
            (QOI_MAGIC / 0x100_0000) as u8,
            (self.width % 256) as u8,
            (self.width / 256) as u8,
            (self.height % 256) as u8,
            (self.height / 256) as u8,
            (length % 256) as u8,
            (length / 0x100 % 256) as u8,
            (length / 0x1_0000 % 256) as u8,
            (length / 0x100_0000) as u8,
        ];
        assert(out@ == header_bytes(self.width, self.height, length));
        Ok(out)
    }

    /// Deserializes the header from a byte array.
    pub fn decode(data: &[u8]) -> (r: Result<Header, Error>)
        ensures
            r == parsed_header(data@),
    {
        if data.len() < QOI_HEADER_SIZE {
            return Err(Error::UnexpectedBufferEnd);
        }
        let magic = data[0] as u32 + 0x100 * (data[1] as u32) + 0x1_0000 * (data[2] as u32)
            + 0x100_0000 * (data[3] as u32);
        let width = data[4] as u16 + 0x100 * (data[5] as u16);
        let height = data[6] as u16 + 0x100 * (data[7] as u16);
        let length = data[8] as u32 + 0x100 * (data[9] as u32) + 0x1_0000 * (data[10] as u32)
            + 0x100_0000 * (data[11] as u32);
        if magic != QOI_MAGIC {
            return Err(Error::InvalidMagic { magic });
        }
        Header::try_new(width, height, Some(length))
    }

    /// Returns a number of pixels in the image.
    pub fn n_pixels(&self) -> (n: usize)
        ensures
            n == self.width * self.height,
    {
        saturate(area(self.width, self.height))
    }

    /// Returns the total number of bytes in the raw pixel array.
    ///
    /// This may come useful when pre-allocating a buffer to decode the image into.
    ///
    /// For dimensions beyond those of a valid header, the result is the
    /// largest `usize` if the number of bytes is beyond it.
    pub fn n_bytes(&self) -> (n: usize)
        ensures
            n == saturated(4 * (self.width * self.height)),
            self.valid() ==> n == 4 * (self.width * self.height),
    {
        saturate(4 * area(self.width, self.height))
    }

    /// The maximum number of bytes the encoded image will take.
    ///
    /// Can be used to pre-allocate the buffer to encode the image into.
    pub fn encode_max_len(&self) -> (n: usize)
        ensures
            n == max_len_of(self.width, self.height),
            self.valid() ==> n == QOI_HEADER_SIZE + 5 * (self.width * self.height)
                + QOI_PADDING_SIZE,
    {
        encode_max_len(self.width, self.height)
    }
}

/// The bytes of a 16-bit number, least significant first, give the number
/// back.
proof fn lemma_le16_round_trip(x: u16)
    ensures
        le_value16(le_bytes16(x)) == x,
{
    assert(x == (x % 256) + 0x100 * (x / 256)) by (bit_vector);
}

/// The bytes of a 32-bit number, least significant first, give the number
/// back.
proof fn lemma_le32_round_trip(x: u32)
    ensures
        le_value32(le_bytes32(x)) == x,
{
    assert(x == (x % 256) + 0x100 * (x / 0x100 % 256) + 0x1_0000 * (x / 0x1_0000 % 256)
        + 0x100_0000 * (x / 0x100_0000)) by (bit_vector);
}

/// A header that is serialized and read again is the same header.
pub proof fn lemma_header_round_trip(width: u16, height: u16, length: u32)
    requires
        valid_dimensions(width, height),
    ensures
        parsed_header(header_bytes(width, height, length)) == Ok::<Header, Error>(
            Header { width, height, length: Some(length) },
        ),
{
    let data = header_bytes(width, height, length);
    assert(data.subrange(0, 4) == le_bytes32(QOI_MAGIC));
    assert(data.subrange(4, 6) == le_bytes16(width));
    assert(data.subrange(6, 8) == le_bytes16(height));
    assert(data.subrange(8, 12) == le_bytes32(length));
    lemma_le32_round_trip(QOI_MAGIC);
    lemma_le16_round_trip(width);
    lemma_le16_round_trip(height);
    lemma_le32_round_trip(length);
}

} // verus!
