//! What a decoder reads back from a chunk stream.
//!
//! The library does not decode images. This module says in specification
//! terms what the chunks of a stream stand for, and proves that the chunk
//! stream of an image stands for exactly the pixels of that image.

use crate::consts::QOI_RUN_MAX;
use crate::pixel::{
    chunk_of, diff_applied, fits_diff, fits_luma, hash_of, lemma_diff_round_trip,
    lemma_luma_round_trip, luma_applied, Pixel,
};
use crate::stream::{
    cached, chunk_stream, chunks_upto, flush_chunk, index_chunk, lemma_first_pixel,
    lemma_next_pixel, opaque_black, run_chunk, state_after, step_output, step_state, uniform,
    zero_pixel, State, CACHE_SLOTS,
};
use vstd::prelude::*;

verus! {

/// What a decoder remembers between two chunks.
pub struct Reader {
    /// The colour cache: after each chunk the pixel that the chunk stands
    /// for is stored in the slot it belongs to.
    pub cache: Seq<Pixel>,
    /// The pixel that the last chunk stood for.
    pub prev: Pixel,
}

/// The state of a decoder before the first chunk.
pub open spec fn reader_start() -> Reader {
    Reader { cache: Seq::new(CACHE_SLOTS as nat, |i: int| zero_pixel()), prev: opaque_black() }
}

/// The number of bytes of the chunk whose first byte is `tag`.
pub open spec fn chunk_len(tag: u8) -> nat {
    if tag == 0xff {
        5
    } else if tag == 0xfe {
        4
    } else if tag / 64 == 2 {
        2
    } else {
        1
    }
}

/// The number of pixels that the chunk whose first byte is `tag` stands
/// for: the length of the run for a run chunk, and one for any other.
pub open spec fn chunk_repeats(tag: u8) -> nat {
    if tag / 64 == 3 && tag < 0xfe {
        (tag - 0xc0 + 1) as nat
    } else {
        1
    }
}

/// The pixel that `chunk` stands for when the decoder is in state `rd`.
pub open spec fn chunk_pixel(rd: Reader, chunk: Seq<u8>) -> Pixel {
    let tag = chunk[0];
    if tag == 0xff {
        Pixel { r: chunk[1], g: chunk[2], b: chunk[3], a: chunk[4] }
    } else if tag == 0xfe {
        Pixel { r: chunk[1], g: chunk[2], b: chunk[3], a: rd.prev.a }
    } else if tag / 64 == 0 {
        rd.cache[tag as int]
    } else if tag / 64 == 1 {
        diff_applied(rd.prev, tag)
    } else if tag / 64 == 2 {
        luma_applied(rd.prev, tag, chunk[1])
    } else {
        rd.prev
    }
}

/// The state of the decoder after `chunk`.
pub open spec fn reader_next(rd: Reader, chunk: Seq<u8>) -> Reader {
    let px = chunk_pixel(rd, chunk);
    Reader { cache: rd.cache.update(hash_of(px) as int, px), prev: px }
}

/// Whether `stream` is made of whole chunks.
#[verifier::opaque]
pub open spec fn whole(stream: Seq<u8>) -> bool
    decreases stream.len(),
{
    stream.len() == 0 || (chunk_len(stream[0]) <= stream.len() && whole(
        stream.skip(chunk_len(stream[0]) as int),
    ))
}

/// The pixels that the chunks of `stream` stand for, read in state `rd`.
#[verifier::opaque]
pub open spec fn decoded(rd: Reader, stream: Seq<u8>) -> Seq<Pixel>
    decreases stream.len(),
{
    if stream.len() == 0 || chunk_len(stream[0]) > stream.len() {
        Seq::empty()
    } else {
        let n = chunk_len(stream[0]) as int;
        let px = chunk_pixel(rd, stream.take(n));
        Seq::new(chunk_repeats(stream[0]), |i: int| px) + decoded(
            reader_next(rd, stream.take(n)),
            stream.skip(n),
        )
    }
}

/// The state of the decoder after the chunks of `stream`, read in state
/// `rd`.
#[verifier::opaque]
pub open spec fn reader_after(rd: Reader, stream: Seq<u8>) -> Reader
    decreases stream.len(),
{
    if stream.len() == 0 || chunk_len(stream[0]) > stream.len() {
        rd
    } else {
        let n = chunk_len(stream[0]) as int;
        reader_after(reader_next(rd, stream.take(n)), stream.skip(n))
    }
}

/// Reading nothing gives nothing and leaves the decoder as it is.
pub proof fn lemma_read_nothing(rd: Reader)
    ensures
        whole(Seq::<u8>::empty()),
        decoded(rd, Seq::<u8>::empty()) == Seq::<Pixel>::empty(),
        reader_after(rd, Seq::<u8>::empty()) == rd,
{
    reveal(whole);
    reveal(decoded);
    reveal(reader_after);
}

/// Reading a stream that starts with the whole chunk `chunk` is reading
/// that chunk and then the rest.
pub proof fn lemma_read_chunk(rd: Reader, chunk: Seq<u8>, rest: Seq<u8>)
    requires
        chunk.len() > 0,
        chunk.len() == chunk_len(chunk[0]),
    ensures
        whole(chunk + rest) == whole(rest),
        decoded(rd, chunk + rest) == Seq::new(
            chunk_repeats(chunk[0]),
            |i: int| chunk_pixel(rd, chunk),
        ) + decoded(reader_next(rd, chunk), rest),
        reader_after(rd, chunk + rest) == reader_after(reader_next(rd, chunk), rest),
{
    reveal(whole);
    reveal(decoded);
    reveal(reader_after);
    let stream = chunk + rest;
    let n = chunk.len() as int;
    assert(stream[0] == chunk[0]);
    assert(stream.take(n) == chunk);
    assert(stream.skip(n) == rest);
}

/// Reading two streams of whole chunks one after the other is reading the
/// first and then, in the state that this leaves, the second.
pub proof fn lemma_read_both(rd: Reader, first: Seq<u8>, second: Seq<u8>)
    requires
        whole(first),
    ensures
        whole(first + second) == whole(second),
        decoded(rd, first + second) == decoded(rd, first) + decoded(
            reader_after(rd, first),
            second,
        ),
        reader_after(rd, first + second) == reader_after(reader_after(rd, first), second),
    decreases first.len(),
{
    if first.len() == 0 {
        lemma_read_nothing(rd);
        assert(first == Seq::<u8>::empty());
        assert(first + second == second);
        assert(Seq::<Pixel>::empty() + decoded(rd, second) == decoded(rd, second));
    } else {
        assert(chunk_len(first[0]) <= first.len() && whole(
            first.skip(chunk_len(first[0]) as int),
        )) by {
            reveal(whole);
        }
        let n = chunk_len(first[0]) as int;
        let chunk = first.take(n);
        let rest = first.skip(n);
        let next = reader_next(rd, chunk);
        assert(chunk[0] == first[0]);
        assert(first == chunk + rest);
        assert(first + second == chunk + (rest + second));
        lemma_read_chunk(rd, chunk, rest);
        lemma_read_chunk(rd, chunk, rest + second);
        lemma_read_both(next, rest, second);
        let head = Seq::new(chunk_repeats(chunk[0]), |i: int| chunk_pixel(rd, chunk));
        assert(head + (decoded(next, rest) + decoded(reader_after(next, rest), second)) == head
            + decoded(next, rest) + decoded(reader_after(next, rest), second));
    }
}

/// Whether a decoder in state `rd` can follow an encoder in state `s`:
/// both have the same previous pixel, and whatever the encoder may refer
/// to in its cache, the decoder holds in the same slot.
pub open spec fn in_step(s: State, rd: Reader) -> bool {
    &&& s.cache.len() == CACHE_SLOTS
    &&& rd.cache.len() == CACHE_SLOTS
    &&& s.run < QOI_RUN_MAX
    &&& rd.prev == s.prev
    &&& forall|h: int|
        0 <= h < 64 && hash_of(#[trigger] s.cache[h]) == h ==> rd.cache[h] == s.cache[h]
    &&& s.index_allowed ==> cached(s, s.prev)
    &&& !s.index_allowed ==> s.prev == opaque_black()
    &&& !s.index_allowed ==> forall|h: int|
        0 <= h < CACHE_SLOTS ==> #[trigger] s.cache[h] == zero_pixel()
}

/// A run chunk stands for as many repetitions of the previous pixel as
/// its length says, and leaves a decoder in step.
proof fn lemma_run_reads_back(s: State, rd: Reader, run: nat)
    requires
        in_step(s, rd),
        1 <= run <= QOI_RUN_MAX,
    ensures
        whole(run_chunk(run)),
        decoded(rd, run_chunk(run)) == uniform(s.prev, run),
        in_step(State { run: 0, ..s }, reader_after(rd, run_chunk(run))),
{
    let chunk = run_chunk(run);
    lemma_read_nothing(reader_next(rd, chunk));
    lemma_read_chunk(rd, chunk, Seq::empty());
    assert(chunk + Seq::<u8>::empty() == chunk);
    assert(chunk[0] == 0xc0 + run - 1);
    assert(uniform(s.prev, run) + Seq::<Pixel>::empty() == uniform(s.prev, run));
    assert(Seq::new(chunk_repeats(chunk[0]), |i: int| chunk_pixel(rd, chunk)) == uniform(
        s.prev,
        run,
    ));
}

/// A reference to the cache slot of a pixel that the encoder holds there
/// stands for that pixel, and leaves a decoder in step with an encoder
/// that moves on to it.
proof fn lemma_index_reads_back(s: State, rd: Reader, px: Pixel)
    requires
        in_step(s, rd),
        cached(s, px),
    ensures
        whole(index_chunk(hash_of(px))),
        decoded(rd, index_chunk(hash_of(px))) == seq![px],
        reader_after(rd, index_chunk(hash_of(px))) == reader_next(rd, index_chunk(hash_of(px))),
        chunk_pixel(rd, index_chunk(hash_of(px))) == px,
{
    let chunk = index_chunk(hash_of(px));
    lemma_read_nothing(reader_next(rd, chunk));
    lemma_read_chunk(rd, chunk, Seq::empty());
    assert(chunk + Seq::<u8>::empty() == chunk);
    assert(chunk[0] == hash_of(px));
    assert(hash_of(s.cache[hash_of(px) as int]) == hash_of(px));
    assert(seq![px] + Seq::<Pixel>::empty() == seq![px]);
    assert(Seq::new(chunk_repeats(chunk[0]), |i: int| chunk_pixel(rd, chunk)) == seq![px]);
}

/// The chunk that encodes a pixel by its value stands for that pixel.
proof fn lemma_value_reads_back(rd: Reader, px: Pixel)
    ensures
        whole(chunk_of(px, rd.prev)),
        decoded(rd, chunk_of(px, rd.prev)) == seq![px],
        reader_after(rd, chunk_of(px, rd.prev)) == reader_next(rd, chunk_of(px, rd.prev)),
        chunk_pixel(rd, chunk_of(px, rd.prev)) == px,
{
    let chunk = chunk_of(px, rd.prev);
    lemma_read_nothing(reader_next(rd, chunk));
    assert(chunk + Seq::<u8>::empty() == chunk);
    if px.a != rd.prev.a {
    } else if fits_diff(px, rd.prev) {
        lemma_diff_round_trip(px, rd.prev);
    } else if fits_luma(px, rd.prev) {
        lemma_luma_round_trip(px, rd.prev);
    } else {
    }
    assert(chunk.len() == chunk_len(chunk[0]));
    assert(chunk_pixel(rd, chunk) == px);
    lemma_read_chunk(rd, chunk, Seq::empty());
    assert(seq![px] + Seq::<Pixel>::empty() == seq![px]);
    assert(Seq::new(chunk_repeats(chunk[0]), |i: int| chunk_pixel(rd, chunk)) == seq![px]);
}

/// What the encoder emits for a pixel is made of whole chunks. They stand
/// for the repetitions that were pending and the pixel itself, or for
/// nothing yet where the pixel extends a run that stays pending; and they
/// leave a decoder in step.
proof fn lemma_step_reads_back(s: State, rd: Reader, px: Pixel, last: bool)
    requires
        in_step(s, rd),
    ensures
        whole(step_output(s, px, last)),
        in_step(step_state(s, px, last), reader_after(rd, step_output(s, px, last))),
        decoded(rd, step_output(s, px, last)) == (if px != s.prev {
            uniform(s.prev, s.run) + seq![px]
        } else if step_state(s, px, last).run == 0 {
            uniform(s.prev, s.run + 1)
        } else {
            Seq::empty()
        }),
{
    let out = step_output(s, px, last);
    if px == s.prev {
        if s.run + 1 == QOI_RUN_MAX || last {
            lemma_run_reads_back(s, rd, s.run + 1);
        } else {
            lemma_read_nothing(rd);
        }
    } else {
        let flush = flush_chunk(s);
        let flushed = State { run: 0, ..s };
        if s.run == 0 {
            lemma_read_nothing(rd);
            assert(uniform(s.prev, 0) == Seq::<Pixel>::empty());
            assert(flushed == s);
        } else if s.run == 1 && s.index_allowed && !s.reference {
            lemma_index_reads_back(s, rd, s.prev);
            assert(uniform(s.prev, 1) == seq![s.prev]);
            assert(reader_next(rd, flush).cache == rd.cache);
        } else {
            lemma_run_reads_back(s, rd, s.run);
        }
        let mid = reader_after(rd, flush);
        assert(whole(flush));
        assert(decoded(rd, flush) == uniform(s.prev, s.run));
        assert(in_step(flushed, mid));
        let chunk = if cached(s, px) {
            index_chunk(hash_of(px))
        } else {
            chunk_of(px, s.prev)
        };
        if cached(s, px) {
            lemma_index_reads_back(flushed, mid, px);
        } else {
            lemma_value_reads_back(mid, px);
        }
        lemma_read_both(rd, flush, chunk);
        let end = reader_after(mid, chunk);
        assert(end == reader_next(mid, chunk));
        assert(end.prev == px);
        assert(end.cache == mid.cache.update(hash_of(px) as int, px));
    }
}

/// The induction behind [`lemma_stream_reads_back`]: the chunks emitted
/// for the first pixels of an image stand for those pixels, but for the
/// repetitions that are still pending.
proof fn lemma_reads_back_upto(pixels: Seq<Pixel>, reference: bool, i: nat)
    requires
        i <= pixels.len(),
    ensures
        ({
            let s = state_after(pixels, reference, i);
            let out = chunks_upto(pixels, reference, i);
            &&& whole(out)
            &&& in_step(s, reader_after(reader_start(), out))
            &&& s.run <= i
            &&& decoded(reader_start(), out) == pixels.take(i - s.run)
            &&& forall|j: int| i - s.run <= j < i ==> pixels[j] == s.prev
            &&& i == pixels.len() ==> s.run == 0
        }),
    decreases i,
{
    if i == 0 {
        lemma_first_pixel(pixels, reference);
        lemma_read_nothing(reader_start());
        assert(pixels.take(0) == Seq::<Pixel>::empty());
    } else {
        let k = (i - 1) as nat;
        lemma_reads_back_upto(pixels, reference, k);
        lemma_next_pixel(pixels, reference, k);
        let before = state_after(pixels, reference, k);
        let s = state_after(pixels, reference, i);
        let out = chunks_upto(pixels, reference, k);
        let px = pixels[k as int];
        let more = step_output(before, px, i == pixels.len());
        let rd = reader_after(reader_start(), out);
        lemma_step_reads_back(before, rd, px, i == pixels.len());
        lemma_read_both(reader_start(), out, more);
        let known = pixels.take(k - before.run);
        if px != before.prev {
            assert(known + (uniform(before.prev, before.run) + seq![px]) == pixels.take(i as int));
        } else if s.run == 0 {
            assert(known + uniform(before.prev, before.run + 1) == pixels.take(i as int));
        } else {
            assert(known + Seq::<Pixel>::empty() == known);
        }
    }
}

/// The chunk stream of an image is made of whole chunks, and they stand
/// for the pixels of the image, one for one: nothing is lost in encoding.
pub proof fn lemma_stream_reads_back(pixels: Seq<Pixel>, reference: bool)
    ensures
        whole(chunk_stream(pixels, reference)),
        decoded(reader_start(), chunk_stream(pixels, reference)) == pixels,
{
    lemma_reads_back_upto(pixels, reference, pixels.len());
    assert(pixels.take(pixels.len() as int) == pixels);
}

} // verus!
