//! Timelapse of a large tiled canvas.
//!
//! Tiles that cover one quadrant each are grouped by timestamp and composited
//! into full frames; the frames are laid end to end in one headerless byte
//! stream and compressed; a player decompresses the stream, cuts it back into
//! frames and steps through them.
pub mod assembler;
pub mod bitmap;
pub mod codec;
pub mod encoder;
pub mod error;
pub mod laws;
pub mod layout;
pub mod naming;
pub mod playback;
pub mod source;
pub mod tile;
