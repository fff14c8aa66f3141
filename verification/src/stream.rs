//! The chunk stream of an image: what the encoder emits, pixel by pixel.
//!
//! The encoder walks the pixels once. Between two pixels it remembers the
//! previous pixel, a cache of colours seen, and how many repetitions of the
//! previous pixel it has not yet written down. [`step_output`] says what it
//! emits for the next pixel and [`step_state`] what it remembers afterwards;
//! [`chunk_stream`] is everything emitted for a whole image.
//!
//! The stream of a given image is worked out one pixel at a time with
//! [`lemma_first_pixel`] and [`lemma_next_pixel`]. The other lemmas say what
//! holds of every image.

use crate::consts::{QOI_OP_INDEX, QOI_OP_RUN, QOI_RUN_MAX};
use crate::pixel::{
    chunk_of, diff_chunk, fits_diff, fits_luma, hash_of, luma_chunk, rgba_chunk, Pixel,
};
use vstd::prelude::*;

verus! {

/// Number of slots that the colour cache is laid out with. The hash of a
/// pixel only ever names the first 64 of them.
pub const CACHE_SLOTS: usize = 256;

/// What the encoder remembers between two pixels.
pub struct State {
    /// The colour cache: slot `hash_of(px)` holds `px` for the pixels that
    /// were stored, and the zero pixel where nothing was.
    pub cache: Seq<Pixel>,
    /// The pixel before the next one.
    pub prev: Pixel,
    /// How many repetitions of `prev` are not yet written down.
    pub run: nat,
    /// Whether slot `hash_of(prev)` of the cache is known to hold `prev`.
    pub index_allowed: bool,
    /// Whether the encoder writes every run down as a run chunk, as the
    /// plainest encoders of the format do.
    pub reference: bool,
}

/// The pixel that every slot of the cache holds before the first pixel.
pub open spec fn zero_pixel() -> Pixel {
    Pixel { r: 0, g: 0, b: 0, a: 0 }
}

/// The pixel that the encoder takes to come before the first pixel.
pub open spec fn opaque_black() -> Pixel {
    Pixel { r: 0, g: 0, b: 0, a: 255 }
}

/// The state before the first pixel: an all-zero cache, opaque black as the
/// previous pixel, and no run. `reference` says whether every run is to be
/// written down as a run chunk.
pub open spec fn initial_state(reference: bool) -> State {
    State {
        cache: Seq::new(CACHE_SLOTS as nat, |i: int| zero_pixel()),
        prev: opaque_black(),
        run: 0,
        index_allowed: false,
        reference,
    }
}

/// The one byte of a run chunk for `run` repetitions, `1 ..= 62`: the tag
/// `11` and the length less one.
pub open spec fn run_chunk(run: nat) -> Seq<u8> {
    seq![(QOI_OP_RUN + run - 1) as u8]
}

/// The one byte of a chunk that refers to `slot` of the colour cache: the
/// tag `00` and the slot.
pub open spec fn index_chunk(slot: u8) -> Seq<u8> {
    seq![(QOI_OP_INDEX + slot) as u8]
}

/// Whether the cache of `s` holds `px` in the slot that `px` belongs to.
pub open spec fn cached(s: State, px: Pixel) -> bool {
    s.cache[hash_of(px) as int] == px
}

/// What closes the pending run of `s` when a different pixel arrives:
/// nothing if there is no run; for a single repetition of a pixel known to
/// be cached, a reference to its slot, unless every run is to be written
/// down as a run chunk; otherwise a run chunk.
pub open spec fn flush_chunk(s: State) -> Seq<u8> {
    if s.run == 0 {
        Seq::empty()
    } else if s.run == 1 && s.index_allowed && !s.reference {
        index_chunk(hash_of(s.prev))
    } else {
        run_chunk(s.run)
    }
}

/// The bytes emitted for the pixel `px` in state `s`; `last` says that `px`
/// is the last pixel of the image.
///
/// A repetition of the previous pixel extends the run, which is written
/// down once it is 62 long or the image ends. Any other pixel first closes
/// the pending run and is then encoded by its cache slot, if the cache holds
/// it, and by its value otherwise.
pub open spec fn step_output(s: State, px: Pixel, last: bool) -> Seq<u8> {
    if px == s.prev {
        if s.run + 1 == QOI_RUN_MAX || last {
            run_chunk(s.run + 1)
        } else {
            Seq::empty()
        }
    } else {
        flush_chunk(s) + (if cached(s, px) {
            index_chunk(hash_of(px))
        } else {
            chunk_of(px, s.prev)
        })
    }
}

/// The state after the pixel `px` in state `s`.
pub open spec fn step_state(s: State, px: Pixel, last: bool) -> State {
    if px == s.prev {
        State {
            run: if s.run + 1 == QOI_RUN_MAX || last {
                0
            } else {
                s.run + 1
            },
            ..s
        }
    } else {
        State {
            cache: s.cache.update(hash_of(px) as int, px),
            prev: px,
            run: 0,
            index_allowed: true,
            reference: s.reference,
        }
    }
}

/// The state after the first `i` pixels of the image `pixels`; `reference`
/// says whether every run is written down as a run chunk.
#[verifier::opaque]
pub open spec fn state_after(pixels: Seq<Pixel>, reference: bool, i: nat) -> State
    decreases i,
{
    if i == 0 {
        initial_state(reference)
    } else {
        step_state(
            state_after(pixels, reference, (i - 1) as nat),
            pixels[i - 1],
            i == pixels.len(),
        )
    }
}

/// The bytes emitted for the first `i` pixels of the image `pixels`;
/// `reference` says whether every run is written down as a run chunk.
#[verifier::opaque]
pub open spec fn chunks_upto(pixels: Seq<Pixel>, reference: bool, i: nat) -> Seq<u8>
    decreases i,
{
    if i == 0 {
        Seq::empty()
    } else {
        chunks_upto(pixels, reference, (i - 1) as nat) + step_output(
            state_after(pixels, reference, (i - 1) as nat),
            pixels[i - 1],
            i == pixels.len(),
        )
    }
}

/// The chunk stream of the image `pixels`; `reference` says whether every
/// run is written down as a run chunk.
pub open spec fn chunk_stream(pixels: Seq<Pixel>, reference: bool) -> Seq<u8> {
    chunks_upto(pixels, reference, pixels.len())
}

/// The samples that the raw bytes `data` hold: one pixel for every four
/// bytes, in the order red, green, blue, alpha. Up to three bytes at the
/// end that do not make a sample are left out.
#[verifier::opaque]
pub open spec fn pixels_of(data: Seq<u8>) -> Seq<Pixel> {
    Seq::new(
        data.len() / 4,
        |i: int|
            Pixel { r: data[4 * i], g: data[4 * i + 1], b: data[4 * i + 2], a: data[4 * i + 3] },
    )
}

/// Before the first pixel the encoder is in its initial state and has
/// emitted nothing.
pub proof fn lemma_first_pixel(pixels: Seq<Pixel>, reference: bool)
    ensures
        state_after(pixels, reference, 0) == initial_state(reference),
        chunks_upto(pixels, reference, 0) == Seq::<u8>::empty(),
{
    reveal(state_after);
    reveal(chunks_upto);
}

/// Pixel `i` of an image takes the encoder one step on.
pub proof fn lemma_next_pixel(pixels: Seq<Pixel>, reference: bool, i: nat)
    ensures
        state_after(pixels, reference, i + 1) == step_state(
            state_after(pixels, reference, i),
            pixels[i as int],
            i + 1 == pixels.len(),
        ),
        chunks_upto(pixels, reference, i + 1) == chunks_upto(pixels, reference, i) + step_output(
            state_after(pixels, reference, i),
            pixels[i as int],
            i + 1 == pixels.len(),
        ),
{
    reveal(state_after);
    reveal(chunks_upto);
}

/// The samples of `data`, one by one.
pub proof fn lemma_pixels_of(data: Seq<u8>)
    ensures
        pixels_of(data).len() == data.len() / 4,
        forall|k: int|
            0 <= k < data.len() / 4 ==> #[trigger] pixels_of(data)[k] == (Pixel {
                r: data[4 * k],
                g: data[4 * k + 1],
                b: data[4 * k + 2],
                a: data[4 * k + 3],
            }),
{
    reveal(pixels_of);
}

/// A chunk that encodes a pixel by its value has one to five bytes.
pub proof fn lemma_chunk_len(px: Pixel, prev: Pixel)
    ensures
        1 <= chunk_of(px, prev).len() <= 5,
{
}

/// While an image is being encoded the cache keeps its size, and the
/// pending run stays under 62; at the end of the image no run is pending.
pub proof fn lemma_state_bounds(pixels: Seq<Pixel>, reference: bool, i: nat)
    requires
        i <= pixels.len(),
    ensures
        state_after(pixels, reference, i).cache.len() == CACHE_SLOTS,
        state_after(pixels, reference, i).run < QOI_RUN_MAX,
        i == pixels.len() ==> state_after(pixels, reference, i).run == 0,
    decreases i,
{
    if i > 0 {
        lemma_state_bounds(pixels, reference, (i - 1) as nat);
        lemma_next_pixel(pixels, reference, (i - 1) as nat);
    } else {
        lemma_first_pixel(pixels, reference);
    }
}

/// What is emitted for the first `i` pixels, and one byte more while a run
/// is pending, comes to at most five bytes a pixel.
pub proof fn lemma_chunks_upto_bound(pixels: Seq<Pixel>, reference: bool, i: nat)
    requires
        i <= pixels.len(),
    ensures
        chunks_upto(pixels, reference, i).len() + (if state_after(pixels, reference, i).run > 0 {
            1nat
        } else {
            0nat
        }) <= 5 * i,
    decreases i,
{
    if i > 0 {
        let before = state_after(pixels, reference, (i - 1) as nat);
        lemma_chunks_upto_bound(pixels, reference, (i - 1) as nat);
        lemma_next_pixel(pixels, reference, (i - 1) as nat);
        lemma_chunk_len(pixels[i - 1], before.prev);
    } else {
        lemma_first_pixel(pixels, reference);
    }
}

/// What is emitted for the first `i` pixels is the start of what is
/// emitted for the first `j`, for `i <= j`.
pub proof fn lemma_chunks_upto_prefix(pixels: Seq<Pixel>, reference: bool, i: nat, j: nat)
    requires
        i <= j <= pixels.len(),
    ensures
        chunks_upto(pixels, reference, i).len() <= chunks_upto(pixels, reference, j).len(),
        chunks_upto(pixels, reference, j).subrange(
            0,
            chunks_upto(pixels, reference, i).len() as int,
        ) == chunks_upto(pixels, reference, i),
    decreases j - i,
{
    if i < j {
        lemma_chunks_upto_prefix(pixels, reference, i, (j - 1) as nat);
        lemma_next_pixel(pixels, reference, (j - 1) as nat);
    }
}

/// What is emitted for the first `i` pixels is no longer than what is
/// emitted for the first `j`, for `i <= j`.
pub proof fn lemma_chunks_upto_grows(pixels: Seq<Pixel>, reference: bool, i: nat, j: nat)
    requires
        i <= j <= pixels.len(),
    ensures
        chunks_upto(pixels, reference, i).len() <= chunks_upto(pixels, reference, j).len(),
{
    lemma_chunks_upto_prefix(pixels, reference, i, j);
}

/// The chunk stream of an image has at most five bytes for each pixel.
pub proof fn lemma_chunk_stream_bound(pixels: Seq<Pixel>, reference: bool)
    ensures
        chunk_stream(pixels, reference).len() <= 5 * pixels.len(),
{
    lemma_chunks_upto_bound(pixels, reference, pixels.len());
}

/// The pixel before pixel `i` of an image: opaque black before the first.
pub open spec fn predecessor(pixels: Seq<Pixel>, i: int) -> Pixel {
    if i == 0 {
        opaque_black()
    } else {
        pixels[i - 1]
    }
}

/// The bytes emitted for pixel `i` of the image `pixels`.
pub open spec fn emitted_for(pixels: Seq<Pixel>, reference: bool, i: int) -> Seq<u8> {
    step_output(state_after(pixels, reference, i as nat), pixels[i], i + 1 == pixels.len())
}

/// What the encoder remembers as the previous pixel is the pixel before
/// the next one.
pub proof fn lemma_prev_is_predecessor(pixels: Seq<Pixel>, reference: bool, i: nat)
    requires
        i <= pixels.len(),
    ensures
        state_after(pixels, reference, i).prev == predecessor(pixels, i as int),
    decreases i,
{
    if i > 0 {
        lemma_prev_is_predecessor(pixels, reference, (i - 1) as nat);
        lemma_next_pixel(pixels, reference, (i - 1) as nat);
    } else {
        lemma_first_pixel(pixels, reference);
    }
}

/// The chunk stream of an image is what is emitted for its pixels, one
/// after the other.
pub proof fn lemma_emitted_in_order(pixels: Seq<Pixel>, reference: bool, i: nat)
    requires
        i < pixels.len(),
    ensures
        chunks_upto(pixels, reference, i + 1) == chunks_upto(pixels, reference, i) + emitted_for(
            pixels,
            reference,
            i as int,
        ),
        chunks_upto(pixels, reference, pixels.len()) == chunk_stream(pixels, reference),
{
    lemma_next_pixel(pixels, reference, i);
}

/// A pixel that differs from the one before it and is held by the cache is
/// encoded by its slot, after what closes the pending run.
pub proof fn lemma_cached_pixel_is_indexed(pixels: Seq<Pixel>, reference: bool, i: int)
    requires
        0 <= i < pixels.len(),
        pixels[i] != predecessor(pixels, i),
        cached(state_after(pixels, reference, i as nat), pixels[i]),
    ensures
        emitted_for(pixels, reference, i) == flush_chunk(
            state_after(pixels, reference, i as nat),
        ) + index_chunk(hash_of(pixels[i])),
{
    lemma_prev_is_predecessor(pixels, reference, i as nat);
}

/// A pixel whose alpha differs from that of the pixel before it is encoded
/// as a literal with alpha, however little its colour moved, unless the
/// cache holds it.
pub proof fn lemma_alpha_change_is_literal(pixels: Seq<Pixel>, reference: bool, i: int)
    requires
        0 <= i < pixels.len(),
        pixels[i].a != predecessor(pixels, i).a,
        !cached(state_after(pixels, reference, i as nat), pixels[i]),
    ensures
        emitted_for(pixels, reference, i) == flush_chunk(
            state_after(pixels, reference, i as nat),
        ) + rgba_chunk(pixels[i]),
        chunk_of(pixels[i], predecessor(pixels, i)) == rgba_chunk(pixels[i]),
{
    lemma_prev_is_predecessor(pixels, reference, i as nat);
}

/// A pixel that differs from the one before it by what a luma chunk can
/// express is never encoded as a literal: it becomes a reference to its
/// cache slot, a diff chunk or a luma chunk.
pub proof fn lemma_luma_before_literal(pixels: Seq<Pixel>, reference: bool, i: int)
    requires
        0 <= i < pixels.len(),
        pixels[i] != predecessor(pixels, i),
        fits_luma(pixels[i], predecessor(pixels, i)),
    ensures
        emitted_for(pixels, reference, i) == flush_chunk(
            state_after(pixels, reference, i as nat),
        ) + (if cached(state_after(pixels, reference, i as nat), pixels[i]) {
            index_chunk(hash_of(pixels[i]))
        } else if fits_diff(pixels[i], predecessor(pixels, i)) {
            diff_chunk(pixels[i], predecessor(pixels, i))
        } else {
            luma_chunk(pixels[i], predecessor(pixels, i))
        }),
        chunk_of(pixels[i], predecessor(pixels, i)) == (if fits_diff(
            pixels[i],
            predecessor(pixels, i),
        ) {
            diff_chunk(pixels[i], predecessor(pixels, i))
        } else {
            luma_chunk(pixels[i], predecessor(pixels, i))
        }),
{
    lemma_prev_is_predecessor(pixels, reference, i as nat);
}

/// Where the alpha of every pixel differs from that of the pixel before it
/// and the cache never holds the pixel at hand, every pixel takes five
/// bytes.
pub proof fn lemma_longest_stream(pixels: Seq<Pixel>, reference: bool)
    requires
        forall|i: int|
            0 <= i < pixels.len() ==> pixels[i].a != #[trigger] predecessor(pixels, i).a,
        forall|i: int|
            0 <= i < pixels.len() ==> !cached(
                #[trigger] state_after(pixels, reference, i as nat),
                pixels[i],
            ),
    ensures
        chunk_stream(pixels, reference).len() == 5 * pixels.len(),
{
    lemma_longest_upto(pixels, reference, pixels.len());
}

/// The induction behind [`lemma_longest_stream`].
proof fn lemma_longest_upto(pixels: Seq<Pixel>, reference: bool, i: nat)
    requires
        i <= pixels.len(),
        forall|k: int|
            0 <= k < pixels.len() ==> pixels[k].a != #[trigger] predecessor(pixels, k).a,
        forall|k: int|
            0 <= k < pixels.len() ==> !cached(
                #[trigger] state_after(pixels, reference, k as nat),
                pixels[k],
            ),
    ensures
        chunks_upto(pixels, reference, i).len() == 5 * i,
        state_after(pixels, reference, i).run == 0,
    decreases i,
{
    if i > 0 {
        let k = (i - 1) as nat;
        lemma_longest_upto(pixels, reference, k);
        lemma_next_pixel(pixels, reference, k);
        lemma_prev_is_predecessor(pixels, reference, k);
        assert(pixels[k as int].a != predecessor(pixels, k as int).a);
        assert(!cached(state_after(pixels, reference, k), pixels[k as int]));
    } else {
        lemma_first_pixel(pixels, reference);
    }
}

/// Whenever the encoder may close a run of one by a reference to the
/// cache, the cache holds the previous pixel in its slot: the reference
/// names the pixel that is repeated.
pub proof fn lemma_allowed_is_cached(pixels: Seq<Pixel>, reference: bool, i: nat)
    requires
        i <= pixels.len(),
    ensures
        state_after(pixels, reference, i).index_allowed ==> cached(
            state_after(pixels, reference, i),
            state_after(pixels, reference, i).prev,
        ),
    decreases i,
{
    if i > 0 {
        lemma_allowed_is_cached(pixels, reference, (i - 1) as nat);
        lemma_next_pixel(pixels, reference, (i - 1) as nat);
        lemma_state_bounds(pixels, reference, (i - 1) as nat);
    } else {
        lemma_first_pixel(pixels, reference);
    }
}

/// Every slot of the cache holds the zero pixel or a pixel of the image
/// that the encoder has been through.
pub proof fn lemma_cache_holds_seen(pixels: Seq<Pixel>, reference: bool, i: nat, slot: int)
    requires
        i <= pixels.len(),
        0 <= slot < CACHE_SLOTS,
    ensures
        state_after(pixels, reference, i).cache[slot] == zero_pixel() || exists|k: int|
            0 <= k < i && #[trigger] pixels[k] == state_after(pixels, reference, i).cache[slot],
    decreases i,
{
    if i > 0 {
        let j = (i - 1) as nat;
        lemma_cache_holds_seen(pixels, reference, j, slot);
        lemma_next_pixel(pixels, reference, j);
        lemma_state_bounds(pixels, reference, j);
        let before = state_after(pixels, reference, j);
        let after = state_after(pixels, reference, i);
        if after.cache[slot] != before.cache[slot] {
            assert(pixels[j as int] == after.cache[slot]);
        } else if before.cache[slot] != zero_pixel() {
            let k = choose|k: int| 0 <= k < j && #[trigger] pixels[k] == before.cache[slot];
            assert(pixels[k] == after.cache[slot]);
        }
    } else {
        lemma_first_pixel(pixels, reference);
    }
}

/// An image without the zero pixel, in which no pixel occurs twice and the
/// alpha of every pixel differs from that of the pixel before it, takes
/// five bytes for every pixel.
pub proof fn lemma_noise_is_longest(pixels: Seq<Pixel>, reference: bool)
    requires
        forall|i: int|
            0 <= i < pixels.len() ==> pixels[i].a != #[trigger] predecessor(pixels, i).a,
        forall|i: int| 0 <= i < pixels.len() ==> #[trigger] pixels[i] != zero_pixel(),
        forall|i: int, j: int| 0 <= i < j < pixels.len() ==> pixels[i] != pixels[j],
    ensures
        chunk_stream(pixels, reference).len() == 5 * pixels.len(),
{
    assert forall|i: int| 0 <= i < pixels.len() implies !cached(
        #[trigger] state_after(pixels, reference, i as nat),
        pixels[i],
    ) by {
        lemma_cache_holds_seen(pixels, reference, i as nat, hash_of(pixels[i]) as int);
    }
    lemma_longest_stream(pixels, reference);
}

/// The image of `n` pixels that are all `px`.
pub open spec fn uniform(px: Pixel, n: nat) -> Seq<Pixel> {
    Seq::new(n, |i: int| px)
}

/// `q` run chunks of the full length 62.
pub open spec fn full_runs(q: nat) -> Seq<u8> {
    Seq::new(q, |i: int| 0xfdu8)
}

/// The run chunks for `k` repetitions: as many of the full length 62 as
/// go into `k`, and one for what is left over.
pub open spec fn run_chunks(k: nat) -> Seq<u8> {
    full_runs(k / 62) + (if k % 62 > 0 {
        run_chunk(k % 62)
    } else {
        Seq::empty()
    })
}

/// The number of repetitions that a sequence of run chunks stands for: for
/// each chunk, its six-bit field and one.
pub open spec fn run_total(chunks: Seq<u8>) -> int
    decreases chunks.len(),
{
    if chunks.len() == 0 {
        0
    } else {
        run_total(chunks.drop_last()) + (chunks.last() - QOI_OP_RUN + 1)
    }
}

/// `q` full run chunks stand for `62 q` repetitions.
proof fn lemma_full_runs_total(q: nat)
    ensures
        run_total(full_runs(q)) == 62 * q,
    decreases q,
{
    if q > 0 {
        lemma_full_runs_total((q - 1) as nat);
        assert(full_runs(q).drop_last() == full_runs((q - 1) as nat));
    }
}

/// The run chunks for `k` repetitions stand for `k` repetitions.
pub proof fn lemma_run_chunks_total(k: nat)
    ensures
        run_total(run_chunks(k)) == k,
{
    lemma_full_runs_total(k / 62);
    if k % 62 > 0 {
        assert(run_chunks(k).drop_last() == full_runs(k / 62));
    } else {
        assert(run_chunks(k) == full_runs(k / 62));
    }
}

/// The induction behind [`lemma_uniform_image`]: after `i` pixels of a
/// uniform image, `reps` of which repeat the pixel before them, the full
/// runs among the repetitions are written down and the rest is pending;
/// after the last pixel all of them are written down.
proof fn lemma_uniform_upto(px: Pixel, n: nat, reference: bool, i: nat)
    requires
        1 <= i <= n,
    ensures
        ({
            let pixels = uniform(px, n);
            let black = opaque_black();
            let reps = if px == black {
                i
            } else {
                (i - 1) as nat
            };
            let first = if px == black {
                Seq::<u8>::empty()
            } else {
                step_output(initial_state(reference), px, false)
            };
            &&& state_after(pixels, reference, i).prev == px
            &&& i < n ==> state_after(pixels, reference, i).run == reps % 62
            &&& i < n ==> chunks_upto(pixels, reference, i) == first + full_runs(reps / 62)
            &&& i == n ==> chunks_upto(pixels, reference, i) == first + run_chunks(reps)
        }),
    decreases i,
{
    let pixels = uniform(px, n);
    let black = opaque_black();
    let k = (i - 1) as nat;
    lemma_next_pixel(pixels, reference, k);
    if i == 1 {
        lemma_first_pixel(pixels, reference);
        if px == black {
            assert(full_runs(0) == Seq::<u8>::empty());
            assert(run_chunks(1) == run_chunk(1));
        } else {
            let first = step_output(initial_state(reference), px, false);
            assert(first + full_runs(0) == first);
            assert(first + run_chunks(0) == first);
        }
    } else {
        lemma_uniform_upto(px, n, reference, k);
        let reps = if px == black {
            k
        } else {
            (k - 1) as nat
        };
        let first = if px == black {
            Seq::<u8>::empty()
        } else {
            step_output(initial_state(reference), px, false)
        };
        let before = state_after(pixels, reference, k);
        assert(before.run == reps % 62);
        if reps % 62 == 61 {
            assert((reps + 1) / 62 == reps / 62 + 1 && (reps + 1) % 62 == 0);
            assert(full_runs(reps / 62) + run_chunk(62) == full_runs((reps / 62 + 1) as nat));
            assert(first + full_runs(reps / 62) + run_chunk(62) == first + full_runs(
                (reps / 62 + 1) as nat,
            ));
            assert(run_chunks(reps + 1) == full_runs((reps / 62 + 1) as nat));
        } else {
            assert((reps + 1) / 62 == reps / 62 && (reps + 1) % 62 == reps % 62 + 1);
            if i == n {
                assert(first + full_runs(reps / 62) + run_chunk((reps % 62 + 1) as nat) == first
                    + run_chunks(reps + 1));
            } else {
                assert(first + full_runs(reps / 62) + Seq::<u8>::empty() == first + full_runs(
                    reps / 62,
                ));
            }
        }
    }
}

/// An image of one colour is encoded as the chunk for its first pixel and
/// run chunks that stand for all the others. Where the colour is opaque
/// black, which the encoder takes to come before the first pixel, the run
/// chunks stand for the first pixel too.
pub proof fn lemma_uniform_image(px: Pixel, n: nat, reference: bool)
    requires
        n >= 1,
    ensures
        px != opaque_black() ==> chunk_stream(uniform(px, n), reference) == step_output(
            initial_state(reference),
            px,
            false,
        ) + run_chunks((n - 1) as nat),
        px == opaque_black() ==> chunk_stream(uniform(px, n), reference) == run_chunks(n),
        run_total(run_chunks((n - 1) as nat)) == n - 1,
        run_total(run_chunks(n)) == n,
{
    lemma_uniform_upto(px, n, reference, n);
    lemma_run_chunks_total((n - 1) as nat);
    lemma_run_chunks_total(n);
    if px == opaque_black() {
        assert(Seq::<u8>::empty() + run_chunks(n) == run_chunks(n));
    }
}

} // verus!
