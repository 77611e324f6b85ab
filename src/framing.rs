//! The two stream adapters of the framed format.

pub use crate::compress::{compress, Compressor};
pub use crate::decompress::{decompress, DecoderState, Decompressor};
