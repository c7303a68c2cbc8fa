//! The renderer's last stage: iteration counts become bytes of the buffer.
//!
//! The buffer is cut into chunks that share no byte, and every chunk is
//! painted from the counts of its own pixels alone. Painting is therefore the
//! same whether the chunks are taken in turn or all at once.

use vstd::prelude::*;
use vstd::arithmetic::div_mod::{lemma_fundamental_div_mod, lemma_fundamental_div_mod_converse};
use crate::color::{color_of, colorize, Rgba};
use crate::frame::{CHANNELS, CHUNK_BYTES, LANES};

verus! {

/// One byte of a pixel: red, green, blue, alpha in this order.
pub open spec fn color_byte(c: Rgba, channel: int) -> u8 {
    if channel == 0 {
        c.r
    } else if channel == 1 {
        c.g
    } else if channel == 2 {
        c.b
    } else {
        c.a
    }
}

/// The whole pixels that are painted when `len` bytes meet `counts` counts:
/// as many as both allow.
pub open spec fn pixels_painted(len: int, counts: int) -> int {
    if len / 4 < counts {
        len / 4
    } else {
        counts
    }
}

/// The bytes after painting: pixel `p` holds the colour of `counts[p]`, and
/// the bytes behind the last painted pixel are as they were.
pub open spec fn painted(bytes: Seq<u8>, counts: Seq<u32>) -> Seq<u8> {
    Seq::new(
        bytes.len(),
        |j: int|
            if j / 4 < pixels_painted(bytes.len() as int, counts.len() as int) {
                color_byte(color_of(counts[j / 4] as nat), j % 4)
            } else {
                bytes[j]
            },
    )
}

/// Paints the pixels of `bytes` with the colours of `counts`, the first pixel
/// with the first count and so on.
pub fn paint(bytes: &mut [u8], counts: &[u32])
    ensures
        final(bytes)@ == painted(old(bytes)@, counts@),
{
    let ghost before = bytes@;
    let ghost goal = painted(before, counts@);
    let pixels: usize = if bytes.len() / CHANNELS < counts.len() {
        bytes.len() / CHANNELS
    } else {
        counts.len()
    };
    proof {
        lemma_fundamental_div_mod(before.len() as int, 4);
    }
    let mut p: usize = 0;
    while p < pixels
        invariant
            p <= pixels,
            pixels * 4 <= before.len() <= usize::MAX,
            pixels == pixels_painted(before.len() as int, counts@.len() as int),
            bytes@.len() == before.len(),
            goal == painted(before, counts@),
            forall|j: int| 0 <= j < 4 * p ==> #[trigger] bytes@[j] == goal[j],
            forall|j: int| 4 * p <= j < before.len() ==> #[trigger] bytes@[j] == before[j],
        decreases pixels - p,
    {
        let c = colorize(counts[p]);
        let at: usize = p * CHANNELS;
        proof {
            lemma_fundamental_div_mod_converse(at as int, 4, p as int, 0);
            lemma_fundamental_div_mod_converse(at + 1, 4, p as int, 1);
            lemma_fundamental_div_mod_converse(at + 2, 4, p as int, 2);
            lemma_fundamental_div_mod_converse(at + 3, 4, p as int, 3);
        }
        bytes[at] = c.r;
        bytes[at + 1] = c.g;
        bytes[at + 2] = c.b;
        bytes[at + 3] = c.a;
        p += 1;
    }
    assert(bytes@ =~= goal);
}

/// The first byte of chunk `n`.
pub open spec fn chunk_start(n: int) -> int {
    n * CHUNK_BYTES as int
}

/// The end of chunk `n` in a buffer of `len` bytes: the last chunk ends with
/// the buffer.
pub open spec fn chunk_end(n: int, len: int) -> int {
    if chunk_start(n + 1) < len {
        chunk_start(n + 1)
    } else {
        len
    }
}

/// The counts of the pixels of chunk `n`.
pub open spec fn chunk_counts(counts: Seq<u32>, n: int) -> Seq<u32> {
    counts.subrange(
        n * LANES as int,
        if (n + 1) * LANES as int <= counts.len() {
            (n + 1) * LANES as int
        } else {
            counts.len() as int
        },
    )
}

/// The chunks share no byte and leave none out: byte `j` of the buffer lies
/// in chunk `j / 32` and in no other.
pub proof fn lemma_chunks_partition(len: int, j: int, n: int)
    requires
        0 <= j < len,
    ensures
        (chunk_start(n) <= j < chunk_end(n, len)) <==> n == j / 32,
{
    lemma_fundamental_div_mod(j, 32);
    if chunk_start(n) <= j < chunk_end(n, len) {
        lemma_fundamental_div_mod_converse(j, 32, n, j - 32 * n);
    }
}

/// Painting chunk by chunk paints the frame: where every chunk of `after` is
/// the chunk of `before` painted with the counts of its own pixels, the whole
/// of `after` is `before` painted with all the counts, so each pixel shows
/// the colour of its own count.
pub proof fn lemma_chunks_compose(before: Seq<u8>, after: Seq<u8>, counts: Seq<u32>)
    requires
        before.len() == after.len(),
        before.len() == counts.len() * 4,
        forall|n: int|
            0 <= n && chunk_start(n) < before.len() ==> after.subrange(
                chunk_start(n),
                chunk_end(n, before.len() as int),
            ) == painted(
                #[trigger] before.subrange(chunk_start(n), chunk_end(n, before.len() as int)),
                chunk_counts(counts, n),
            ),
    ensures
        after == painted(before, counts),
        forall|p: int, channel: int|
            0 <= p < counts.len() && 0 <= channel < 4 ==> #[trigger] after[4 * p + channel]
                == color_byte(color_of(counts[p] as nat), channel),
{
    let len = before.len() as int;
    assert forall|j: int| 0 <= j < len implies after[j] == painted(before, counts)[j] by {
        let n = j / 32;
        let lo = chunk_start(n);
        let hi = chunk_end(n, len);
        lemma_chunks_partition(len, j, n);
        let piece = before.subrange(lo, hi);
        let own = chunk_counts(counts, n);
        assert(after.subrange(lo, hi) == painted(piece, own));
        assert(after[j] == after.subrange(lo, hi)[j - lo]);
        let k = j - lo;
        // the pixel of byte `j` within its chunk, and within the frame
        lemma_fundamental_div_mod(k, 4);
        lemma_fundamental_div_mod(j, 4);
        lemma_fundamental_div_mod(j, 32);
        lemma_fundamental_div_mod_converse(j, 4, 8 * n + k / 4, k % 4);
        assert(j / 4 == 8 * n + k / 4);
        assert(j % 4 == k % 4);
        assert(j / 4 < counts.len());
        assert(k / 4 < own.len());
        lemma_fundamental_div_mod(hi - lo, 4);
        assert(k / 4 < (hi - lo) / 4) by {
            lemma_fundamental_div_mod_converse(hi - lo, 4, (hi - lo) / 4, 0);
            assert((hi - lo) % 4 == 0) by {
                if hi == len {
                    lemma_fundamental_div_mod_converse(
                        len - lo,
                        4,
                        counts.len() as int - 8 * n,
                        0,
                    );
                } else {
                    lemma_fundamental_div_mod_converse(hi - lo, 4, 8, 0);
                }
            }
        }
        assert(own[k / 4] == counts[j / 4]);
    }
    assert(after =~= painted(before, counts));
    assert forall|p: int, channel: int|
        0 <= p < counts.len() && 0 <= channel < 4 implies #[trigger] after[4 * p + channel]
        == color_byte(color_of(counts[p] as nat), channel) by {
        lemma_fundamental_div_mod_converse(4 * p + channel, 4, p, channel);
    }
}

} // verus!
