//! Framed Snappy streams: chunk framing, checksums and the encode / decode
//! state machines, verified with Verus.
//!
//! The wire format is a sequence of chunks `tag | length (3 bytes, little
//! endian) | payload`. [`Compressor`] cuts a byte stream into blocks of at
//! most 64 KiB and frames each compressed block; [`Decompressor`] validates
//! and decodes chunks as their bytes arrive.

pub mod compress;
pub mod decompress;
pub mod format;
pub mod framing;
pub mod laws;
pub mod snappy;

pub use compress::{compress, Compressor};
pub use decompress::{decompress, DecoderState, Decompressor};
pub use format::{masked_checksum, FrameError};
