//! The fixed geometry that the producer and the player of a frame stream share.
//!
//! Nothing in the stream records these numbers: both sides must be built with
//! the same constants.
use vstd::prelude::*;

verus! {

/// Width of a composite frame, in pixels.
pub const FRAME_WIDTH: usize = 2000;

/// Height of a composite frame, in pixels.
pub const FRAME_HEIGHT: usize = 2000;

/// Side of the square region that one quadrant covers, in pixels.
pub const TILE_SIZE: usize = 1000;

/// Bytes of one RGBA pixel.
pub const BYTES_PER_PIXEL: usize = 4;

/// Bytes of one frame in the stream: every pixel of the frame, four bytes each.
pub const FRAME_SIZE: usize = 16_000_000;

/// The frame size is the pixel count times the pixel size.
pub proof fn lemma_frame_size()
    ensures
        FRAME_SIZE == FRAME_WIDTH * FRAME_HEIGHT * BYTES_PER_PIXEL,
        FRAME_WIDTH == 2 * TILE_SIZE,
        FRAME_HEIGHT == 2 * TILE_SIZE,
{
}

} // verus!
