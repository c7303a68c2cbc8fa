//! Frame geometry and the coordinate mapper's integer half.
//!
//! A frame is a row-major grid of pixels with its origin at the top left, four
//! bytes to a pixel. The mapper turns a pixel's linear index into its signed
//! offset from the middle of the frame; dividing that offset by the width and
//! the zoom scale, and adding the view's centre, is left to the caller, who has
//! real numbers at hand.

use vstd::prelude::*;
use vstd::arithmetic::div_mod::{lemma_fundamental_div_mod, lemma_fundamental_div_mod_converse};

verus! {

/// Bytes per pixel: red, green, blue, alpha.
pub const CHANNELS: usize = 4;

/// Pixels that the kernel advances together.
pub const LANES: usize = 8;

/// Bytes of the buffer that one full batch of pixels covers.
pub const CHUNK_BYTES: usize = 32;

/// Why a pair of dimensions is no resolution.
#[derive(Clone, Copy, Debug, PartialEq, Eq, Structural)]
pub enum ResolutionError {
    /// The width is zero.
    ZeroWidth,
    /// The height is zero.
    ZeroHeight,
    /// The buffer would have more bytes than the machine can address.
    TooLarge,
}

/// A pixel's position relative to the middle of the frame, in whole pixels:
/// `x` grows to the right, `y` grows downwards.
#[derive(Clone, Copy, Debug, PartialEq, Eq, Structural)]
pub struct PixelOffset {
    pub x: i64,
    pub y: i64,
}

/// The offset of pixel `n` in a frame `width` wide and `height` high.
///
/// Both components are later divided by the width, never by the height, so
/// that a pixel is as wide as it is high whatever the shape of the frame.
pub open spec fn offset_of(n: int, width: int, height: int) -> (int, int) {
    (n % width - width / 2, n / width - height / 2)
}

/// The index of the pixel in the middle of the frame.
pub open spec fn center_of(width: int, height: int) -> int {
    (height / 2) * width + width / 2
}

/// Whether `width` and `height` describe a frame whose buffer can exist.
pub open spec fn dimensions_ok(width: int, height: int) -> bool {
    &&& width > 0
    &&& height > 0
    &&& width * height * CHANNELS as int <= usize::MAX
}

/// The dimensions of a frame. Both are positive, and the byte length of the
/// frame's buffer fits the machine.
#[derive(Clone, Copy, Debug)]
pub struct Resolution {
    width: usize,
    height: usize,
}

impl Resolution {
    /// The width in pixels.
    pub closed spec fn spec_width(&self) -> int {
        self.width as int
    }

    /// The height in pixels.
    pub closed spec fn spec_height(&self) -> int {
        self.height as int
    }

    /// What holds of every resolution.
    pub open spec fn wf(&self) -> bool {
        dimensions_ok(self.spec_width(), self.spec_height())
    }

    #[verifier::type_invariant]
    spec fn inv(self) -> bool {
        self.wf()
    }

    /// The number of pixels.
    pub open spec fn spec_pixel_count(&self) -> int {
        self.spec_width() * self.spec_height()
    }

    /// The byte length of the frame's buffer.
    pub open spec fn spec_buffer_len(&self) -> int {
        self.spec_pixel_count() * CHANNELS as int
    }

    /// The number of batches that cover the frame, the last one perhaps short.
    pub open spec fn spec_chunk_count(&self) -> int {
        (self.spec_pixel_count() + LANES as int - 1) / LANES as int
    }

    /// Checks a pair of dimensions. Fails on a zero width, then on a zero
    /// height, then on a buffer length beyond the machine's range.
    pub fn new(width: usize, height: usize) -> (r: Result<Resolution, ResolutionError>)
        ensures
            match r {
                Ok(res) => dimensions_ok(width as int, height as int)
                    && res.wf()
                    && res.spec_width() == width
                    && res.spec_height() == height,
                Err(ResolutionError::ZeroWidth) => width == 0,
                Err(ResolutionError::ZeroHeight) => width > 0 && height == 0,
                Err(ResolutionError::TooLarge) => width > 0 && height > 0
                    && width * height * CHANNELS as int > usize::MAX,
            },
    {
        if width == 0 {
            return Err(ResolutionError::ZeroWidth);
        }
        if height == 0 {
            return Err(ResolutionError::ZeroHeight);
        }
        match width.checked_mul(height) {
            None => {
                assert(width * height * 4 >= width * height) by (nonlinear_arith)
                    requires
                        width > 0,
                        height > 0,
                ;
                Err(ResolutionError::TooLarge)
            },
            Some(pixels) => match pixels.checked_mul(CHANNELS) {
                None => Err(ResolutionError::TooLarge),
                Some(_) => Ok(Resolution { width, height }),
            },
        }
    }

    /// The width in pixels.
    pub fn width(&self) -> (w: usize)
        ensures
            w == self.spec_width(),
            w > 0,
    {
        proof {
            use_type_invariant(self);
        }
        self.width
    }

    /// The height in pixels.
    pub fn height(&self) -> (h: usize)
        ensures
            h == self.spec_height(),
            h > 0,
    {
        proof {
            use_type_invariant(self);
        }
        self.height
    }

    /// The number of pixels.
    pub fn pixel_count(&self) -> (n: usize)
        ensures
            n == self.spec_pixel_count(),
            n > 0,
    {
        proof {
            use_type_invariant(self);
            lemma_dimensions(self.width as int, self.height as int);
        }
        self.width * self.height
    }

    /// The byte length of the frame's buffer.
    pub fn buffer_len(&self) -> (n: usize)
        ensures
            n == self.spec_buffer_len(),
    {
        proof {
            use_type_invariant(self);
            lemma_dimensions(self.width as int, self.height as int);
        }
        self.width * self.height * CHANNELS
    }

    /// A buffer for this frame with every byte at its highest value: white,
    /// and opaque once and for all.
    pub fn blank_buffer(&self) -> (buf: Vec<u8>)
        ensures
            buf@.len() == self.spec_buffer_len(),
            forall|j: int| 0 <= j < buf@.len() ==> #[trigger] buf@[j] == 255u8,
    {
        let len: usize = self.buffer_len();
        vec![255u8; len]
    }

    /// Whether a buffer of `len` bytes is a buffer of this frame.
    pub fn fits(&self, len: usize) -> (b: bool)
        ensures
            b == (len == self.spec_buffer_len()),
    {
        len == self.buffer_len()
    }

    /// The number of batches that cover the frame.
    pub fn chunk_count(&self) -> (n: usize)
        ensures
            n == self.spec_chunk_count(),
    {
        let pixels: usize = self.pixel_count();
        proof {
            use_type_invariant(self);
            lemma_dimensions(self.width as int, self.height as int);
        }
        (pixels - 1) / LANES + 1
    }

    /// The index of the pixel in the middle of the frame.
    pub fn center_index(&self) -> (n: usize)
        ensures
            n == center_of(self.spec_width(), self.spec_height()),
            n < self.spec_pixel_count(),
    {
        proof {
            use_type_invariant(self);
            lemma_dimensions(self.width as int, self.height as int);
            lemma_center_in_frame(self.width as int, self.height as int);
        }
        (self.height / 2) * self.width + self.width / 2
    }

    /// The coordinate mapper's integer half: the offset of pixel `n` from the
    /// middle of the frame. `n` may lie up to one batch behind the last pixel,
    /// as the lanes of a short last batch do.
    pub fn pixel_offset(&self, n: usize) -> (p: PixelOffset)
        requires
            n < self.spec_pixel_count() + LANES,
        ensures
            (p.x as int, p.y as int) == offset_of(n as int, self.spec_width(), self.spec_height()),
    {
        proof {
            use_type_invariant(self);
            lemma_dimensions(self.width as int, self.height as int);
        }
        let col: usize = n % self.width;
        let row: usize = n / self.width;
        assert(row <= n) by (nonlinear_arith)
            requires
                row == n / self.width,
                self.width > 0,
        ;
        PixelOffset {
            x: col as i64 - (self.width / 2) as i64,
            y: row as i64 - (self.height / 2) as i64,
        }
    }

    /// The offsets of the pixels of batch `chunk`, lane by lane: lane `i`
    /// stands for pixel `chunk * LANES + i`.
    pub fn lane_offsets(&self, chunk: usize) -> (lanes: [PixelOffset; 8])
        requires
            chunk < self.spec_chunk_count(),
        ensures
            forall|i: int|
                0 <= i < LANES ==> (#[trigger] lanes[i].x as int, lanes[i].y as int) == offset_of(
                    chunk * LANES + i,
                    self.spec_width(),
                    self.spec_height(),
                ),
    {
        proof {
            use_type_invariant(self);
            lemma_dimensions(self.width as int, self.height as int);
        }
        let first: usize = chunk * LANES;
        let mut lanes: [PixelOffset; 8] = [PixelOffset { x: 0, y: 0 }; 8];
        let mut i: usize = 0;
        while i < LANES
            invariant
                i <= LANES,
                first == chunk * LANES,
                first < self.spec_pixel_count(),
                self.wf(),
                self.spec_pixel_count() * 4 <= usize::MAX,
                forall|j: int|
                    0 <= j < i ==> (#[trigger] lanes[j].x as int, lanes[j].y as int) == offset_of(
                        first + j,
                        self.spec_width(),
                        self.spec_height(),
                    ),
            decreases LANES - i,
        {
            lanes[i] = self.pixel_offset(first + i);
            i += 1;
        }
        lanes
    }
}

/// Bounds that follow from valid dimensions.
pub proof fn lemma_dimensions(width: int, height: int)
    requires
        dimensions_ok(width, height),
    ensures
        width * height > 0,
        width <= width * height,
        height <= width * height,
        width * height * 4 <= usize::MAX,
        width * height + LANES <= i64::MAX,
{
    assert(width * height >= width && width * height >= height && width * height > 0)
        by (nonlinear_arith)
        requires
            width > 0,
            height > 0,
    ;
}

/// The middle pixel lies in the frame.
pub proof fn lemma_center_in_frame(width: int, height: int)
    requires
        width > 0,
        height > 0,
    ensures
        0 <= center_of(width, height) < width * height,
{
    let row = height / 2;
    assert(0 <= row * width && row * width + width <= height * width) by (nonlinear_arith)
        requires
            0 <= row,
            row + 1 <= height,
            width > 0,
    ;
    assert(height * width == width * height) by (nonlinear_arith);
}

/// The middle pixel is mapped to the origin: its offset is zero on both axes.
pub proof fn lemma_center_maps_to_origin(width: int, height: int)
    requires
        width > 0,
        height > 0,
    ensures
        offset_of(center_of(width, height), width, height) == (0int, 0int),
{
    let row = height / 2;
    let col = width / 2;
    lemma_fundamental_div_mod_converse(center_of(width, height), width, row, col);
}

/// The mapper loses nothing: a pixel's index is found again from its offset,
/// so no two pixels of a frame share an offset.
pub proof fn lemma_offset_determines_index(n: int, width: int, height: int)
    requires
        width > 0,
        0 <= n,
    ensures
        n == (offset_of(n, width, height).1 + height / 2) * width + (offset_of(n, width, height).0
            + width / 2),
{
    lemma_fundamental_div_mod(n, width);
    assert((n / width) * width == width * (n / width)) by (nonlinear_arith);
}

/// Where the width is a multiple of the batch size, a batch never runs over
/// the end of a row: its lanes are neighbours on one row, from left to right.
pub proof fn lemma_lanes_share_row(chunk: int, lane: int, width: int, height: int)
    requires
        width > 0,
        width % (LANES as int) == 0,
        0 <= chunk,
        0 <= lane < LANES,
    ensures
        offset_of(chunk * LANES + lane, width, height).0 == offset_of(
            chunk * LANES as int,
            width,
            height,
        ).0 + lane,
        offset_of(chunk * LANES + lane, width, height).1 == offset_of(
            chunk * LANES as int,
            width,
            height,
        ).1,
{
    let first = chunk * 8;
    let row = first / width;
    let col = first % width;
    lemma_fundamental_div_mod(first, width);
    let per_row = width / 8;
    lemma_fundamental_div_mod(width, 8);
    assert(width == 8 * per_row);
    // the first lane's column is a multiple of the batch size
    assert(col % 8 == 0) by {
        assert(col == 8 * chunk - 8 * per_row * row) by (nonlinear_arith)
            requires
                first == width * row + col,
                first == chunk * 8,
                width == 8 * per_row,
        ;
        assert(col == 8 * (chunk - per_row * row)) by (nonlinear_arith)
            requires
                col == 8 * chunk - 8 * per_row * row,
        ;
        lemma_fundamental_div_mod_converse(col, 8, chunk - per_row * row, 0);
    }
    assert(col + lane < width) by {
        lemma_fundamental_div_mod(col, 8);
        assert(col == 8 * (col / 8));
        assert(col / 8 < per_row) by (nonlinear_arith)
            requires
                col == 8 * (col / 8),
                col < width,
                width == 8 * per_row,
        ;
        assert(8 * (col / 8) + 8 <= 8 * per_row) by (nonlinear_arith)
            requires
                col / 8 < per_row,
        ;
    }
    assert(first + lane == row * width + (col + lane)) by (nonlinear_arith)
        requires
            first == width * row + col,
    ;
    lemma_fundamental_div_mod_converse(first + lane, width, row, col + lane);
}

} // verus!
