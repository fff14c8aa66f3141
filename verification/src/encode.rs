//! The encoder: from raw pixels to header, chunks and end marker.

use crate::consts::{
    QOI_HEADER_SIZE, QOI_OP_INDEX, QOI_OP_RUN, QOI_PADDING, QOI_PADDING_SIZE, QOI_RUN_MAX,
};
use crate::error::Error;
use crate::decode::{decoded, lemma_stream_reads_back, reader_start, whole};
use crate::header::{
    header_bytes, lemma_header_round_trip, parsed_header, saturate, saturated, valid_dimensions,
    Header,
};
use crate::pixel::{chunk_of, hash_of, Pixel};
use crate::stream::{
    cached, chunk_stream, chunks_upto, flush_chunk, index_chunk, initial_state,
    lemma_chunk_stream_bound, lemma_chunks_upto_grows, lemma_first_pixel, lemma_longest_stream,
    lemma_next_pixel, lemma_pixels_of, pixels_of, predecessor, state_after, step_output,
    step_state, State,
};
use crate::utils::{appended, BytesMut, Writer};
use vstd::prelude::*;
use vstd::slice::slice_subrange;

verus! {

/// The end marker as a sequence: seven zero bytes and a one.
pub open spec fn padding() -> Seq<u8> {
    seq![0u8, 0u8, 0u8, 0u8, 0u8, 0u8, 0u8, 1u8]
}

/// What emitting `bytes` to the sink `before` results in: the sink with
/// `bytes` appended and that much less room, together with the number of
/// bytes, where they fit; and otherwise the failure for want of room.
pub open spec fn emitted<W: Writer>(
    before: W,
    bytes: Seq<u8>,
    r: Result<(W, usize), Error>,
) -> bool {
    if bytes.len() <= before.remaining() {
        &&& r matches Ok((after, n))
        &&& after.written() == before.written() + bytes
        &&& after.remaining() == before.remaining() - bytes.len()
        &&& n == bytes.len()
    } else {
        r matches Err(e) && e is OutputBufferTooSmall
    }
}

/// The tag bytes of run and index chunks, in arithmetic terms.
proof fn lemma_tags(x: u8)
    by (bit_vector)
    ensures
        x < 62 ==> 0xc0u8 | x == 0xc0u8 + x,
        0x00u8 | x == x,
{
}

/// What the encoder remembers between two pixels, as it runs.
struct Progress {
    index: [Pixel; 256],
    px_prev: Pixel,
    hash_prev: u8,
    run: u8,
    index_allowed: bool,
    reference: bool,
}

impl Progress {
    /// The state that this stands for.
    closed spec fn view(&self) -> State {
        State {
            cache: self.index@,
            prev: self.px_prev,
            run: self.run as nat,
            index_allowed: self.index_allowed,
            reference: self.reference,
        }
    }

    /// The slot of the previous pixel is at hand, and the run is one that a
    /// chunk can still take a repetition more of.
    closed spec fn wf(&self) -> bool {
        self.hash_prev == hash_of(self.px_prev) && self.run < QOI_RUN_MAX
    }

    /// The state before the first pixel.
    fn new(reference: bool) -> (p: Progress)
        ensures
            p.wf(),
            p@ == initial_state(reference),
    {
        let px_prev = Pixel::new().with_a(0xff);
        let p = Progress {
            index: [Pixel::new();256],
            px_prev,
            hash_prev: px_prev.hash_index(),
            run: 0,
            index_allowed: false,
            reference,
        };
        assert(p.index@ =~= initial_state(reference).cache);
        p
    }

    /// Takes the pixel `px` in: writes to `buf` what is emitted for it, and
    /// moves on to the state after it.
    fn step<W: Writer>(&mut self, px: Pixel, last: bool, buf: W) -> (r: Result<W, Error>)
        requires
            old(self).wf(),
        ensures
            appended(buf, step_output(old(self)@, px, last), r),
            r is Ok ==> final(self).wf() && final(self)@ == step_state(old(self)@, px, last),
    {
        let ghost s = self@;
        let px_prev = self.px_prev;
        if px == px_prev {
            self.run += 1;
            if self.run == QOI_RUN_MAX || last {
                proof {
                    lemma_tags((self.run - 1) as u8);
                }
                let byte = QOI_OP_RUN | (self.run - 1);
                assert(step_output(s, px, last) == seq![byte]);
                assert(buf.written().push(byte) == buf.written() + seq![byte]);
                self.run = 0;
                buf.write_one(byte)
            } else {
                assert(buf.written() + step_output(s, px, last) == buf.written());
                Ok(buf)
            }
        } else {
            let mut sink = buf;
            if self.run != 0 {
                proof {
                    lemma_tags((self.run - 1) as u8);
                    lemma_tags(self.hash_prev);
                }
                let byte = if self.run == 1 && self.index_allowed && !self.reference {
                    QOI_OP_INDEX | self.hash_prev
                } else {
                    QOI_OP_RUN | (self.run - 1)
                };
                assert(flush_chunk(s) == seq![byte]);
                assert(sink.written().push(byte) == sink.written() + seq![byte]);
                match sink.write_one(byte) {
                    Ok(w) => {
                        sink = w;
                    },
                    Err(e) => {
                        return Err(e);
                    },
                }
                self.run = 0;
            }
            assert(sink.written() == buf.written() + flush_chunk(s));
            self.index_allowed = true;
            let px_rgba = px.as_rgba();
            self.hash_prev = px_rgba.hash_index();
            self.px_prev = px;
            proof {
                lemma_tags(self.hash_prev);
            }
            let ghost tail = if cached(s, px) {
                index_chunk(hash_of(px))
            } else {
                chunk_of(px, s.prev)
            };
            assert(buf.written() + flush_chunk(s) + tail == buf.written() + (flush_chunk(s)
                + tail));
            if self.index[self.hash_prev as usize] == px_rgba {
                let byte = QOI_OP_INDEX | self.hash_prev;
                assert(self.index@ == s.cache.update(hash_of(px) as int, px));
                assert(sink.written().push(byte) == sink.written() + tail);
                sink.write_one(byte)
            } else {
                self.index[self.hash_prev as usize] = px_rgba;
                px.encode_into(px_prev, sink)
            }
        }
    }
}

/// Once the chunks of the first pixels of an image are more than a sink has
/// room for, so is the whole chunk stream with the end marker.
proof fn lemma_no_room(pixels: Seq<Pixel>, reference: bool, i: nat, room: nat)
    requires
        i < pixels.len(),
        chunks_upto(pixels, reference, i).len() + step_output(
            state_after(pixels, reference, i),
            pixels[i as int],
            i + 1 == pixels.len(),
        ).len() > room,
    ensures
        (chunk_stream(pixels, reference) + padding()).len() > room,
{
    lemma_next_pixel(pixels, reference, i);
    lemma_chunks_upto_grows(pixels, reference, i + 1, pixels.len());
}

/// Writes the chunk stream of the samples in `data` and the end marker to
/// `buf`, and hands the sink back with the number of bytes written.
/// `reference` says whether every run is written down as a run chunk.
fn encode_impl<W: Writer>(buf: W, data: &[u8], reference: bool) -> (r: Result<
    (W, usize),
    Error,
>)
    ensures
        emitted(buf, chunk_stream(pixels_of(data@), reference) + padding(), r),
{
    let cap = buf.capacity();
    let ghost pixels = pixels_of(data@);

    let mut sink = buf;
    let mut progress = Progress::new(reference);
    proof {
        lemma_first_pixel(pixels, reference);
    }
    let mut px = Pixel::new().with_a(0xff);
    let n_pixels = data.len() / 4;
    proof {
        lemma_pixels_of(data@);
    }

    let mut i: usize = 0;
    while i < n_pixels
        invariant
            i <= n_pixels,
            n_pixels == pixels.len(),
            pixels == pixels_of(data@),
            4 * n_pixels <= data@.len() <= usize::MAX,
            forall|k: int|
                0 <= k < n_pixels ==> #[trigger] pixels[k] == (Pixel {
                    r: data@[4 * k],
                    g: data@[4 * k + 1],
                    b: data@[4 * k + 2],
                    a: data@[4 * k + 3],
                }),
            progress.wf(),
            progress@ == state_after(pixels, reference, i as nat),
            chunks_upto(pixels, reference, i as nat).len() <= buf.remaining(),
            sink.written() == buf.written() + chunks_upto(pixels, reference, i as nat),
            sink.remaining() == buf.remaining() - chunks_upto(
                pixels,
                reference,
                i as nat,
            ).len(),
        ensures
            i == n_pixels,
        decreases n_pixels - i,
    {
        let ghost before = chunks_upto(pixels, reference, i as nat);
        let ghost out = step_output(progress@, pixels[i as int], i + 1 == pixels.len());
        let sample = slice_subrange(data, 4 * i, 4 * i + 4);
        px.read(sample);
        assert(px == pixels[i as int]);
        match progress.step(px, i == n_pixels - 1, sink) {
            Ok(b) => {
                sink = b;
            },
            Err(e) => {
                proof {
                    lemma_no_room(pixels, reference, i as nat, buf.remaining());
                }
                return Err(e);
            },
        }
        proof {
            lemma_next_pixel(pixels, reference, i as nat);
            assert(buf.written() + before + out == buf.written() + (before + out));
        }
        i += 1;
    }

    let ghost chunks = chunk_stream(pixels, reference);
    assert(chunks == chunks_upto(pixels, reference, i as nat));
    assert(QOI_PADDING@ == padding());
    assert(buf.written() + chunks + padding() == buf.written() + (chunks + padding()));
    match sink.write_many(&QOI_PADDING) {
        Ok(b) => {
            sink = b;
        },
        Err(e) => {
            return Err(e);
        },
    }
    let n_written = cap - sink.capacity();
    Ok((sink, n_written))
}

/// The most bytes that an encoded image of `width` by `height` pixels can
/// take: the header, five bytes for each pixel and the end marker; or the
/// largest `usize` if that is beyond it.
pub open spec fn max_len_of(width: u16, height: u16) -> usize {
    saturated(QOI_HEADER_SIZE + 5 * (width * height) + QOI_PADDING_SIZE)
}

/// The maximum number of bytes the encoded image will take.
///
/// Can be used to pre-allocate the buffer to encode the image into.
///
/// For dimensions beyond those of a valid header, the result is the largest
/// `usize` if the number of bytes is beyond it.
pub fn encode_max_len(width: u16, height: u16) -> (n: usize)
    ensures
        n == max_len_of(width, height),
        valid_dimensions(width, height) ==> n == QOI_HEADER_SIZE + 5 * (width * height)
            + QOI_PADDING_SIZE,
{
    assert(0 <= width * height <= 0xffff * 0xffff) by (nonlinear_arith)
        requires
            0 <= width <= 0xffff,
            0 <= height <= 0xffff,
    ;
    let n_pixels = width as u64 * height as u64;
    saturate(QOI_HEADER_SIZE as u64 + 4 * n_pixels + n_pixels + QOI_PADDING_SIZE as u64)
}

/// The encoded form of the image whose samples are `data`: the header with
/// the dimensions and the length of the chunk stream, the chunk stream, and
/// the end marker. `reference` says whether every run is written down as a
/// run chunk.
pub open spec fn encoded(data: Seq<u8>, width: u16, height: u16, reference: bool) -> Seq<u8> {
    let chunks = chunk_stream(pixels_of(data), reference);
    header_bytes(width, height, chunks.len() as u32) + chunks + padding()
}

/// Whether `size` bytes of samples can be an image of `width` by `height`
/// pixels: the dimensions are valid and there are three or four bytes to
/// each pixel.
pub open spec fn consistent(size: nat, width: u16, height: u16) -> bool {
    &&& valid_dimensions(width, height)
    &&& (size == 3 * (width * height) || size == 4 * (width * height))
}

/// The encoded form of an image that [`consistent`] admits is never longer
/// than [`max_len_of`] says, and the length of its chunk stream fits the
/// header field.
pub proof fn lemma_encoded_len(data: Seq<u8>, width: u16, height: u16, reference: bool)
    requires
        consistent(data.len(), width, height),
    ensures
        chunk_stream(pixels_of(data), reference).len() <= 5 * (width * height) <= 2_000_000_000,
        encoded(data, width, height, reference).len() == QOI_HEADER_SIZE + chunk_stream(
            pixels_of(data),
            reference,
        ).len() + QOI_PADDING_SIZE,
        encoded(data, width, height, reference).len() <= max_len_of(width, height),
        max_len_of(width, height) == QOI_HEADER_SIZE + 5 * (width * height) + QOI_PADDING_SIZE,
{
    lemma_pixels_of(data);
    lemma_chunk_stream_bound(pixels_of(data), reference);
}

/// An image of four bytes a pixel in which the alpha of every pixel differs
/// from that of the pixel before it, and in which the cache never holds the
/// pixel at hand, takes exactly as many bytes as [`max_len_of`] says.
pub proof fn lemma_longest_image(data: Seq<u8>, width: u16, height: u16, reference: bool)
    requires
        valid_dimensions(width, height),
        data.len() == 4 * (width * height),
        forall|i: int|
            0 <= i < pixels_of(data).len() ==> pixels_of(data)[i].a != #[trigger] predecessor(
                pixels_of(data),
                i,
            ).a,
        forall|i: int|
            0 <= i < pixels_of(data).len() ==> !cached(
                #[trigger] state_after(pixels_of(data), reference, i as nat),
                pixels_of(data)[i],
            ),
    ensures
        encoded(data, width, height, reference).len() == max_len_of(width, height),
{
    lemma_pixels_of(data);
    lemma_encoded_len(data, width, height, reference);
    lemma_longest_stream(pixels_of(data), reference);
}

/// An encoded image can be taken apart again: its first twelve bytes read as
/// the header with the dimensions and the length of the chunk stream; that
/// many bytes behind the header are whole chunks that stand for the samples
/// of the image, one for one; and the end marker is what is left.
pub proof fn lemma_image_reads_back(data: Seq<u8>, width: u16, height: u16, reference: bool)
    requires
        consistent(data.len(), width, height),
    ensures
        ({
            let image = encoded(data, width, height, reference);
            let n = chunk_stream(pixels_of(data), reference).len();
            let chunks = image.subrange(QOI_HEADER_SIZE as int, QOI_HEADER_SIZE + n);
            &&& parsed_header(image) == Ok::<Header, Error>(
                Header { width, height, length: Some(n as u32) },
            )
            &&& whole(chunks)
            &&& decoded(reader_start(), chunks) == pixels_of(data)
            &&& image.subrange(QOI_HEADER_SIZE + n, image.len() as int) == padding()
        }),
{
    let image = encoded(data, width, height, reference);
    let stream = chunk_stream(pixels_of(data), reference);
    let n = stream.len();
    let head = header_bytes(width, height, n as u32);
    lemma_encoded_len(data, width, height, reference);
    lemma_header_round_trip(width, height, n as u32);
    lemma_stream_reads_back(pixels_of(data), reference);
    assert(image.subrange(QOI_HEADER_SIZE as int, QOI_HEADER_SIZE + n) == stream);
    assert(image.subrange(0, 4) == head.subrange(0, 4));
    assert(image.subrange(4, 6) == head.subrange(4, 6));
    assert(image.subrange(6, 8) == head.subrange(6, 8));
    assert(image.subrange(8, 12) == head.subrange(8, 12));
}

/// Writes `src` into `buf` from position `at` on.
fn copy_into(buf: &mut [u8], at: usize, src: &[u8])
    requires
        at + src@.len() <= old(buf)@.len(),
    ensures
        final(buf)@ == old(buf)@.subrange(0, at as int) + src@ + old(buf)@.subrange(
            at + src@.len(),
            old(buf)@.len() as int,
        ),
{
    let len = buf.len();
    let mut i: usize = 0;
    while i < src.len()
        invariant
            i <= src@.len(),
            at + src@.len() <= len,
            buf@.len() == len == old(buf)@.len(),
            buf@ == old(buf)@.subrange(0, at as int) + src@.subrange(0, i as int) + old(
                buf,
            )@.subrange(at + i, old(buf)@.len() as int),
        decreases src@.len() - i,
    {
        buf[at + i] = src[i];
        i += 1;
    }
    assert(src@.subrange(0, i as int) == src@);
}

/// Encode the image into a pre-allocated buffer.
///
/// Returns the total number of bytes written.
pub fn encode_to_buf(buf: &mut [u8], data: &[u8], width: u16, height: u16) -> (r: Result<
    usize,
    Error,
>)
    ensures
        encoded_to_buf(old(buf)@, final(buf)@, data@, width, height, false, r),
{
    match Encoder::new(data, width, height) {
        Ok(mut encoder) => encoder.encode_to_buf(buf),
        Err(e) => Err(e),
    }
}

/// Encode the image into a newly allocated vector.
pub fn encode_to_vec(data: &[u8], width: u16, height: u16) -> (r: Result<Vec<u8>, Error>)
    ensures
        consistent(data@.len(), width, height) ==> r is Ok && r->Ok_0@ == encoded(
            data@,
            width,
            height,
            false,
        ) && r->Ok_0@.len() <= max_len_of(width, height),
        !consistent(data@.len(), width, height) ==> r is Err && r->Err_0 == (
        Error::InvalidImageLength { size: data@.len() as usize, width, height }),
{
    match Encoder::new(data, width, height) {
        Ok(mut encoder) => encoder.encode_to_vec(),
        Err(e) => Err(e),
    }
}

/// What encoding the samples `data` into a buffer results in, where `before`
/// is the buffer as it was and `after` as it is left.
///
/// Samples that are no image of the given dimensions are refused, and so is
/// a buffer shorter than [`max_len_of`]; the buffer is then left as it was.
/// Otherwise the buffer starts with the encoded image, the result is the
/// length of that, which is at most [`max_len_of`], and what lies behind
/// the image in the buffer is left as it was.
pub open spec fn encoded_to_buf(
    before: Seq<u8>,
    after: Seq<u8>,
    data: Seq<u8>,
    width: u16,
    height: u16,
    reference: bool,
    r: Result<usize, Error>,
) -> bool {
    if !consistent(data.len(), width, height) {
        &&& r == Err::<usize, Error>(
            Error::InvalidImageLength { size: data.len() as usize, width, height },
        )
        &&& after == before
    } else if before.len() < max_len_of(width, height) {
        &&& r == Err::<usize, Error>(
            Error::OutputBufferTooSmall {
                size: before.len() as usize,
                required: max_len_of(width, height),
            },
        )
        &&& after == before
    } else {
        let image = encoded(data, width, height, reference);
        &&& r == Ok::<usize, Error>(image.len() as usize)
        &&& image.len() <= max_len_of(width, height)
        &&& after == image + before.subrange(image.len() as int, before.len() as int)
    }
}

/// Encode images into buffers or into sinks.
pub struct Encoder<'a> {
    data: &'a [u8],
    header: Header,
    reference: bool,
}

impl<'a> Encoder<'a> {
    /// The samples are an image of the dimensions in the header.
    #[verifier::type_invariant]
    spec fn consistent(&self) -> bool {
        consistent(self.data@.len(), self.header.width, self.header.height)
    }

    /// The samples that this encoder was made for.
    pub closed spec fn samples(&self) -> Seq<u8> {
        self.data@
    }

    /// The header that this encoder holds.
    pub closed spec fn spec_header(&self) -> Header {
        self.header
    }

    /// Whether this encoder writes every run down as a run chunk.
    pub closed spec fn reference(&self) -> bool {
        self.reference
    }

    /// Creates a new encoder from a given array of pixel data and image dimensions.
    ///
    /// The number of channels is inferred from the length of the data, and has
    /// to be 3 or 4; data of any other length is refused, and so are invalid
    /// dimensions. Whatever the number of channels, the encoder takes the data
    /// four bytes at a time, as [`pixels_of`] says. The encoder closes runs in
    /// the default way, see [`Encoder::with_reference`].
    pub fn new(data: &'a [u8], width: u16, height: u16) -> (r: Result<Encoder<'a>, Error>)
        ensures
            consistent(data@.len(), width, height) ==> r is Ok && r->Ok_0.samples() == data@
                && r->Ok_0.spec_header() == (Header { width, height, length: None })
                && !r->Ok_0.reference(),
            !consistent(data@.len(), width, height) ==> r is Err && r->Err_0 == (
            Error::InvalidImageLength { size: data@.len() as usize, width, height }),
    {
        let size = data.len();
        let header = match Header::try_new(width, height, None) {
            Ok(header) => header,
            Err(_) => {
                return Err(Error::InvalidImageLength { size, width, height });
            },
        };
        let n_pixels = header.n_pixels();
        assert(0 < width * height) by (nonlinear_arith)
            requires
                0 < width,
                0 < height,
        ;
        let n_channels = size / n_pixels;
        let exact = (n_channels == 3 && 3 * n_pixels == size) || (n_channels == 4 && 4 * n_pixels
            == size);
        if !exact {
            assert(size != 3 * n_pixels && size != 4 * n_pixels) by (nonlinear_arith)
                requires
                    n_pixels > 0,
                    n_channels == size / n_pixels,
                    !((n_channels == 3 && 3 * n_pixels == size) || (n_channels == 4 && 4 * n_pixels
                        == size)),
            ;
            return Err(Error::InvalidImageLength { size, width, height });
        }
        Ok(Encoder { data, header, reference: false })
    }

    /// Chooses between the two ways to close a run of a single repetition
    /// when a different pixel follows.
    ///
    /// By default the encoder writes a reference to the cache slot of the
    /// repeated pixel wherever it knows the slot to hold it. With
    /// `reference` set it writes a run chunk, as the plainest encoders of
    /// the format do. Both take one byte and decode to the same pixel.
    pub fn with_reference(self, reference: bool) -> (e: Encoder<'a>)
        ensures
            e.samples() == self.samples(),
            e.spec_header() == self.spec_header(),
            e.reference() == reference,
    {
        proof {
            use_type_invariant(&self);
        }
        Encoder { data: self.data, header: self.header, reference }
    }

    /// Returns the header that will be stored in the encoded image.
    pub fn header(&self) -> (h: &Header)
        ensures
            *h == self.spec_header(),
    {
        &self.header
    }

    /// The maximum number of bytes the encoded image will take.
    ///
    /// Can be used to pre-allocate the buffer to encode the image into.
    pub fn required_buf_len(&self) -> (n: usize)
        ensures
            n == max_len_of(self.spec_header().width, self.spec_header().height),
            n == QOI_HEADER_SIZE + 5 * (self.spec_header().width * self.spec_header().height)
                + QOI_PADDING_SIZE,
    {
        proof {
            use_type_invariant(self);
        }
        self.header.encode_max_len()
    }

    /// Encodes the image to a pre-allocated buffer and returns the number of bytes written.
    ///
    /// The minimum size of the buffer can be found via [`Encoder::required_buf_len`].
    /// On success the header of the encoder holds the length of the chunk stream.
    pub fn encode_to_buf(&mut self, buf: &mut [u8]) -> (r: Result<usize, Error>)
        ensures
            encoded_to_buf(
                old(buf)@,
                final(buf)@,
                old(self).samples(),
                old(self).spec_header().width,
                old(self).spec_header().height,
                old(self).reference(),
                r,
            ),
            final(self).samples() == old(self).samples(),
            final(self).reference() == old(self).reference(),
            r is Err ==> final(self).spec_header() == old(self).spec_header(),
            r is Ok ==> final(self).spec_header() == (Header {
                length: Some(
                    chunk_stream(
                        pixels_of(old(self).samples()),
                        old(self).reference(),
                    ).len() as u32,
                ),
                ..old(self).spec_header()
            }),
    {
        proof {
            use_type_invariant(&*self);
            lemma_encoded_len(self.data@, self.header.width, self.header.height, self.reference);
        }
        let size_required = self.required_buf_len();
        if buf.len() < size_required {
            return Err(Error::OutputBufferTooSmall { size: buf.len(), required: size_required });
        }
        let sink = BytesMut::new(buf.len() - QOI_HEADER_SIZE);
        let (sink, n_written) = match encode_impl(sink, self.data, self.reference) {
            Ok(done) => done,
            Err(e) => {
                return Err(e);
            },
        };
        self.header.length = Some((n_written - QOI_PADDING_SIZE) as u32);
        let head = match self.header.encode() {
            Ok(head) => head,
            Err(e) => {
                return Err(e);
            },
        };
        copy_into(buf, 0, &head);
        copy_into(buf, QOI_HEADER_SIZE, sink.as_slice());
        proof {
            let image = encoded(
                self.data@,
                self.header.width,
                self.header.height,
                self.reference,
            );
            assert(image == head@ + sink.written());
            assert(buf@ == image + old(buf)@.subrange(image.len() as int, old(buf)@.len() as int));
        }
        Ok(QOI_HEADER_SIZE + n_written)
    }

    /// Encodes the image into a newly allocated vector of bytes and returns it.
    ///
    /// Afterwards the header of the encoder holds the length of the chunk stream.
    pub fn encode_to_vec(&mut self) -> (r: Result<Vec<u8>, Error>)
        ensures
            r is Ok,
            r->Ok_0@ == encoded(
                old(self).samples(),
                old(self).spec_header().width,
                old(self).spec_header().height,
                old(self).reference(),
            ),
            r->Ok_0@.len() <= max_len_of(
                old(self).spec_header().width,
                old(self).spec_header().height,
            ),
            final(self).samples() == old(self).samples(),
            final(self).reference() == old(self).reference(),
            final(self).spec_header() == (Header {
                length: Some(
                    chunk_stream(
                        pixels_of(old(self).samples()),
                        old(self).reference(),
                    ).len() as u32,
                ),
                ..old(self).spec_header()
            }),
    {
        proof {
            use_type_invariant(&*self);
            lemma_encoded_len(self.data@, self.header.width, self.header.height, self.reference);
        }
        let mut out = vec![0_u8; self.required_buf_len()];
        let size = match self.encode_to_buf(out.as_mut_slice()) {
            Ok(size) => size,
            Err(e) => {
                return Err(e);
            },
        };
        out.truncate(size);
        Ok(out)
    }

    /// Encodes the image and writes it to the sink `writer`, which comes
    /// back with the number of bytes written.
    ///
    /// Nothing is written unless the whole image fits.
    pub fn encode_to_stream<W: Writer>(&self, writer: W) -> (r: Result<(W, usize), Error>)
        ensures
            ({
                let image = encoded(
                    self.samples(),
                    self.spec_header().width,
                    self.spec_header().height,
                    self.reference(),
                );
                if image.len() <= writer.remaining() {
                    &&& r matches Ok((after, n))
                    &&& after.written() == writer.written() + image
                    &&& after.remaining() == writer.remaining() - image.len()
                    &&& n == image.len()
                } else {
                    r == Err::<(W, usize), Error>(
                        Error::OutputBufferTooSmall {
                            size: writer.remaining() as usize,
                            required: image.len() as usize,
                        },
                    )
                }
            }),
    {
        proof {
            use_type_invariant(self);
            lemma_encoded_len(self.data@, self.header.width, self.header.height, self.reference);
        }
        let scratch = BytesMut::new(self.required_buf_len() - QOI_HEADER_SIZE);
        let (scratch, n_written) = match encode_impl(scratch, self.data, self.reference) {
            Ok(done) => done,
            Err(e) => {
                return Err(e);
            },
        };
        let header = Header {
            length: Some((n_written - QOI_PADDING_SIZE) as u32),
            ..self.header
        };
        let head = match header.encode() {
            Ok(head) => head,
            Err(e) => {
                return Err(e);
            },
        };
        let room = writer.capacity();
        if room < QOI_HEADER_SIZE + n_written {
            return Err(
                Error::OutputBufferTooSmall { size: room, required: QOI_HEADER_SIZE + n_written },
            );
        }
        let writer = match writer.write_many(&head) {
            Ok(writer) => writer,
            Err(e) => {
                return Err(e);
            },
        };
        let writer = match writer.write_many(scratch.as_slice()) {
            Ok(writer) => writer,
            Err(e) => {
                return Err(e);
            },
        };
        Ok((writer, QOI_HEADER_SIZE + n_written))
    }
}

} // verus!
