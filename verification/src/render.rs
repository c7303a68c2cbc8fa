//! The frame renderer: mapper, kernel and colorizer, batch by batch.
//!
//! The buffer is cut into chunks of one batch of pixels each. A chunk is
//! rendered from its own bytes and its own number alone, so the chunks are
//! handed out to a pool of workers and joined before the frame is returned.
//!
//! The numbers that an orbit is made of are the caller's: `orbit` places the
//! pixels of a batch in the plane and sets their orbits to zero, `advance`
//! tests and moves them. Everything else is done here.

use vstd::prelude::*;
use rayon::iter::{IndexedParallelIterator, ParallelIterator};
use rayon::slice::ParallelSliceMut;
use vstd::arithmetic::div_mod::{lemma_fundamental_div_mod, lemma_fundamental_div_mod_converse};
use crate::color::color_of;
use crate::frame::{offset_of, PixelOffset, Resolution, CHUNK_BYTES, LANES};
use crate::kernel::{
    column, escape_time, lemma_escape_time_bounds, keeps_going, lemma_run_is_reproducible, ran, run,
    single_valued, traced, MAX_ITER,
};
use crate::paint::{chunk_end, chunk_start, color_byte, lemma_chunks_partition, paint, painted};

verus! {

/// Why a frame was not rendered.
#[derive(Clone, Copy, Debug, PartialEq, Eq, Structural)]
pub enum RenderError {
    /// The buffer is not as long as the resolution asks.
    LengthMismatch,
}

/// The renderer can work with `orbit` and `advance`: `orbit` takes every
/// batch of offsets, and `advance` takes what `orbit` returns and what it
/// returns itself.
pub open spec fn accepted<S, O: Fn([PixelOffset; 8]) -> S, A: Fn(S) -> (S, [bool; 8])>(
    orbit: O,
    advance: A,
) -> bool {
    &&& forall|offsets: [PixelOffset; 8]| call_requires(orbit, (offsets,))
    &&& forall|offsets: [PixelOffset; 8], start: S| #[trigger]
        call_ensures(orbit, (offsets,), start) ==> call_requires(advance, (start,))
    &&& keeps_going(advance)
}

/// `offsets` are the offsets of the pixels of batch `chunk`, lane by lane.
pub open spec fn lanes_at(offsets: [PixelOffset; 8], chunk: int, width: int, height: int) -> bool {
    forall|i: int|
        0 <= i < LANES ==> (#[trigger] offsets[i].x as int, offsets[i].y as int) == offset_of(
            chunk * LANES + i,
            width,
            height,
        )
}

/// `after` is chunk number `chunk` once rendered: its pixels were mapped,
/// `orbit` placed them, the kernel followed them with `advance`, and each
/// pixel was painted with the colour of its escape time.
pub open spec fn chunk_rendered<S, O: Fn([PixelOffset; 8]) -> S, A: Fn(S) -> (S, [bool; 8])>(
    before: Seq<u8>,
    after: Seq<u8>,
    chunk: int,
    width: int,
    height: int,
    orbit: O,
    advance: A,
) -> bool {
    exists|offsets: [PixelOffset; 8], start: S, ks: [u32; 8]|
        #![trigger call_ensures(orbit, (offsets,), start), ran(advance, start, ks)]
        {
            &&& lanes_at(offsets, chunk, width, height)
            &&& call_ensures(orbit, (offsets,), start)
            &&& ran(advance, start, ks)
            &&& after == painted(before, ks@)
        }
}

/// Renders one chunk of the buffer: the bytes of batch `chunk`.
pub fn render_chunk<S, O, A>(
    bytes: &mut [u8],
    chunk: usize,
    resolution: &Resolution,
    orbit: &O,
    advance: &A,
) where O: Fn([PixelOffset; 8]) -> S, A: Fn(S) -> (S, [bool; 8])
    requires
        chunk < resolution.spec_chunk_count(),
        accepted(*orbit, *advance),
    ensures
        chunk_rendered(
            old(bytes)@,
            final(bytes)@,
            chunk as int,
            resolution.spec_width(),
            resolution.spec_height(),
            *orbit,
            *advance,
        ),
{
    let offsets = resolution.lane_offsets(chunk);
    let start = orbit(offsets);
    let ghost placed = start;
    let ks = run(start, advance);
    paint(bytes, ks.as_slice());
    proof {
        assert(lanes_at(offsets, chunk as int, resolution.spec_width(), resolution.spec_height()));
        assert(ran(*advance, placed, ks));
    }
}

/// Every chunk of `after` is the chunk of `before` once rendered.
pub open spec fn frame_rendered<S, O: Fn([PixelOffset; 8]) -> S, A: Fn(S) -> (S, [bool; 8])>(
    before: Seq<u8>,
    after: Seq<u8>,
    width: int,
    height: int,
    orbit: O,
    advance: A,
) -> bool {
    &&& after.len() == before.len()
    &&& forall|n: int|
        0 <= n && chunk_start(n) < before.len() ==> chunk_rendered(
            before.subrange(chunk_start(n), chunk_end(n, before.len() as int)),
            #[trigger] after.subrange(chunk_start(n), chunk_end(n, before.len() as int)),
            n,
            width,
            height,
            orbit,
            advance,
        )
}

/// Renders all chunks on rayon's pool: `par_chunks_mut` cuts the buffer into
/// pieces of `CHUNK_BYTES` bytes that do not overlap, the last one perhaps
/// shorter, `enumerate` numbers them from zero in the order of the buffer,
/// and `for_each` calls `render_chunk` once on each and returns when all
/// calls have. The contract claims that much: every piece ends as
/// `render_chunk` leaves it, and the buffer keeps its length.
#[verifier::external_body]
fn render_chunks<S, O, A>(buffer: &mut [u8], resolution: &Resolution, orbit: &O, advance: &A) where
    O: Fn([PixelOffset; 8]) -> S + Sync,
    A: Fn(S) -> (S, [bool; 8]) + Sync,

    requires
        old(buffer)@.len() == resolution.spec_buffer_len(),
        accepted(*orbit, *advance),
    ensures
        frame_rendered(
            old(buffer)@,
            final(buffer)@,
            resolution.spec_width(),
            resolution.spec_height(),
            *orbit,
            *advance,
        ),
{
    buffer.par_chunks_mut(CHUNK_BYTES).enumerate().for_each(
        |(chunk, bytes)| render_chunk(bytes, chunk, resolution, orbit, advance),
    );
}

/// Renders a frame into `buffer`, every byte of it, unless the buffer is not
/// one of this resolution; then nothing is written.
pub fn render<S, O, A>(buffer: &mut [u8], resolution: &Resolution, orbit: &O, advance: &A) -> (r:
    Result<(), RenderError>) where
    O: Fn([PixelOffset; 8]) -> S + Sync,
    A: Fn(S) -> (S, [bool; 8]) + Sync,

    requires
        accepted(*orbit, *advance),
    ensures
        r.is_ok() <==> old(buffer)@.len() == resolution.spec_buffer_len(),
        r.is_err() ==> final(buffer)@ == old(buffer)@,
        r.is_ok() ==> frame_rendered(
            old(buffer)@,
            final(buffer)@,
            resolution.spec_width(),
            resolution.spec_height(),
            *orbit,
            *advance,
        ),
{
    if !resolution.fits(buffer.len()) {
        return Err(RenderError::LengthMismatch);
    }
    render_chunks(buffer, resolution, orbit, advance);
    Ok(())
}

/// Pixel `p` of `bytes` shows the colour of count `k`.
pub open spec fn shows(bytes: Seq<u8>, p: int, k: nat) -> bool {
    forall|channel: int|
        0 <= channel < 4 ==> #[trigger] bytes[4 * p + channel] == color_byte(color_of(k), channel)
}

/// A rendered frame is written in full: whatever the buffer held before,
/// every pixel of it shows the colour of a count that the kernel can give.
pub proof fn lemma_frame_is_painted<S, O: Fn([PixelOffset; 8]) -> S, A: Fn(S) -> (S, [bool; 8])>(
    before: Seq<u8>,
    after: Seq<u8>,
    width: int,
    height: int,
    orbit: O,
    advance: A,
    p: int,
)
    requires
        before.len() == width * height * 4,
        frame_rendered(before, after, width, height, orbit, advance),
        0 <= p < width * height,
    ensures
        exists|k: nat| k <= MAX_ITER && #[trigger] shows(after, p, k),
{
    let len = before.len() as int;
    let n = p / 8;
    let lane = p % 8;
    lemma_fundamental_div_mod(p, 8);
    let lo = chunk_start(n);
    let hi = chunk_end(n, len);
    let piece = after.subrange(lo, hi);
    assert(chunk_rendered(before.subrange(lo, hi), piece, n, width, height, orbit, advance));
    let (offsets, start, ks): ([PixelOffset; 8], S, [u32; 8]) = choose|
        offsets: [PixelOffset; 8],
        start: S,
        ks: [u32; 8],
    |
        #![trigger call_ensures(orbit, (offsets,), start), ran(advance, start, ks)]
        {
            &&& lanes_at(offsets, n, width, height)
            &&& call_ensures(orbit, (offsets,), start)
            &&& ran(advance, start, ks)
            &&& piece == painted(before.subrange(lo, hi), ks@)
        };
    let (states, rows): (Seq<S>, Seq<[bool; 8]>) = choose|states: Seq<S>, rows: Seq<[bool; 8]>|
        {
            &&& #[trigger] traced(advance, start, states, rows)
            &&& forall|lane: int|
                0 <= lane < LANES ==> #[trigger] ks[lane] == escape_time(column(rows, lane))
        };
    lemma_escape_time_bounds(column(rows, lane));
    let k = ks[lane] as nat;
    assert(k <= MAX_ITER);
    lemma_fundamental_div_mod(hi - lo, 4);
    assert forall|channel: int| 0 <= channel < 4 implies #[trigger] after[4 * p + channel]
        == color_byte(color_of(k), channel) by {
        let j = 4 * lane + channel;
        assert(after[4 * p + channel] == piece[j]);
        lemma_fundamental_div_mod_converse(j, 4, lane, channel);
        assert(4 * lane + 4 <= hi - lo);
        assert(lane < (hi - lo) / 4);
    }
    assert(shows(after, p, k));
}

/// `orbit` is a function: a batch of offsets is placed in one way.
pub open spec fn placed_in_one_way<S, O: Fn([PixelOffset; 8]) -> S>(orbit: O) -> bool {
    forall|offsets: [PixelOffset; 8], s1: S, s2: S|
        #![trigger call_ensures(orbit, (offsets,), s1), call_ensures(orbit, (offsets,), s2)]
        call_ensures(orbit, (offsets,), s1) && call_ensures(orbit, (offsets,), s2) ==> s1 == s2
}

/// Rendering is reproducible: where `orbit` and `advance` are functions, a
/// buffer has one rendering, byte for byte.
pub proof fn lemma_render_is_reproducible<
    S,
    O: Fn([PixelOffset; 8]) -> S,
    A: Fn(S) -> (S, [bool; 8]),
>(
    before: Seq<u8>,
    after1: Seq<u8>,
    after2: Seq<u8>,
    width: int,
    height: int,
    orbit: O,
    advance: A,
)
    requires
        placed_in_one_way(orbit),
        single_valued(advance),
        frame_rendered(before, after1, width, height, orbit, advance),
        frame_rendered(before, after2, width, height, orbit, advance),
    ensures
        after1 == after2,
{
    let len = before.len() as int;
    assert forall|j: int| 0 <= j < len implies after1[j] == after2[j] by {
        let n = j / 32;
        lemma_chunks_partition(len, j, n);
        let lo = chunk_start(n);
        let hi = chunk_end(n, len);
        let piece = before.subrange(lo, hi);
        let piece1 = after1.subrange(lo, hi);
        let piece2 = after2.subrange(lo, hi);
        assert(chunk_rendered(piece, piece1, n, width, height, orbit, advance));
        assert(chunk_rendered(piece, piece2, n, width, height, orbit, advance));
        lemma_chunk_is_reproducible(piece, piece1, piece2, n, width, height, orbit, advance);
        assert(after1[j] == piece1[j - lo]);
        assert(after2[j] == piece2[j - lo]);
    }
    assert(after1 =~= after2);
}

/// Where `orbit` and `advance` are functions, a chunk has one rendering.
pub proof fn lemma_chunk_is_reproducible<
    S,
    O: Fn([PixelOffset; 8]) -> S,
    A: Fn(S) -> (S, [bool; 8]),
>(
    before: Seq<u8>,
    after1: Seq<u8>,
    after2: Seq<u8>,
    chunk: int,
    width: int,
    height: int,
    orbit: O,
    advance: A,
)
    requires
        placed_in_one_way(orbit),
        single_valued(advance),
        chunk_rendered(before, after1, chunk, width, height, orbit, advance),
        chunk_rendered(before, after2, chunk, width, height, orbit, advance),
    ensures
        after1 == after2,
{
    let (offsets1, start1, ks1): ([PixelOffset; 8], S, [u32; 8]) = choose|
        offsets: [PixelOffset; 8],
        start: S,
        ks: [u32; 8],
    |
        #![trigger call_ensures(orbit, (offsets,), start), ran(advance, start, ks)]
        {
            &&& lanes_at(offsets, chunk, width, height)
            &&& call_ensures(orbit, (offsets,), start)
            &&& ran(advance, start, ks)
            &&& after1 == painted(before, ks@)
        };
    let (offsets2, start2, ks2): ([PixelOffset; 8], S, [u32; 8]) = choose|
        offsets: [PixelOffset; 8],
        start: S,
        ks: [u32; 8],
    |
        #![trigger call_ensures(orbit, (offsets,), start), ran(advance, start, ks)]
        {
            &&& lanes_at(offsets, chunk, width, height)
            &&& call_ensures(orbit, (offsets,), start)
            &&& ran(advance, start, ks)
            &&& after2 == painted(before, ks@)
        };
    assert forall|i: int| 0 <= i < LANES implies offsets1[i] == offsets2[i] by {
        assert((offsets1[i].x as int, offsets1[i].y as int) == offset_of(
            chunk * LANES + i,
            width,
            height,
        ));
        assert((offsets2[i].x as int, offsets2[i].y as int) == offset_of(
            chunk * LANES + i,
            width,
            height,
        ));
    }
    assert(offsets1 =~= offsets2);
    assert(start1 == start2);
    lemma_run_is_reproducible(advance, start1, ks1, ks2);
}

} // verus!
