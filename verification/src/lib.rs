//! Audio records in the canonical PCM form, and the loudness score that
//! orders them.
//!
//! - [`audio`]: a decoded file, and how a file becomes one.
//! - [`pcm`]: the canonical form (one channel, 16 bits, 44,100 Hz) and the
//!   way decoded audio is brought to it.
//! - [`loudness`]: the mean absolute sample value as an exact fraction, with
//!   its order.
//! - [`sorting`]: the stable sort of records by loudness.
//! - [`error`]: why a decode failed, at which stage, for which file.
//! - [`media`]: the calls into the demuxers and decoders, taken on trust.

pub mod audio;
pub mod error;
pub mod loudness;
pub mod media;
pub mod pcm;
pub mod sorting;
