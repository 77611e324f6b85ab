//! The Snappy block codec, provided by the `snap` crate.

use vstd::prelude::*;

use crate::format::{FrameError, BLOCK_SIZE};

verus! {

/// The Snappy block that `snap`'s raw encoder makes of `b`.
pub uninterp spec fn snappy_compressed(b: Seq<u8>) -> Seq<u8>;

/// What `snap`'s raw decoder makes of `c`: the decoded block, or `None`
/// where `c` is not a valid Snappy block.
pub uninterp spec fn snappy_decompressed(c: Seq<u8>) -> Option<Seq<u8>>;

/// Relies on snap::raw::Encoder::compress_vec. It fails only on inputs over
/// 2^32 - 1 bytes; its output fits the buffer of `max_compress_len`, that is
/// 32 + n + n / 6 bytes for n input bytes; and snap::raw::Decoder decodes it
/// back to the input.
#[verifier::external_body]
pub(crate) fn compress_block(b: &[u8]) -> (r: Vec<u8>)
    requires
        b@.len() <= BLOCK_SIZE,
    ensures
        r@ == snappy_compressed(b@),
        r@.len() <= 32 + b@.len() + b@.len() / 6,
        snappy_decompressed(r@) == Some(b@),
{
    snap::raw::Encoder::new().compress_vec(b).unwrap()
}

/// Relies on snap::raw::Decoder::decompress_vec: the decoded block, or an
/// error for bytes that are not a valid Snappy block.
#[verifier::external_body]
pub(crate) fn decompress_block(c: &[u8]) -> (r: Option<Vec<u8>>)
    ensures
        match r {
            Some(v) => snappy_decompressed(c@) == Some(v@),
            None => snappy_decompressed(c@) is None,
        },
{
    snap::raw::Decoder::new().decompress_vec(c).ok()
}

/// Decodes the Snappy block `src` into `dst`, replacing what `dst` held.
/// A block that is not valid Snappy is refused with `CorruptBlock`, and
/// `dst` is then left as it was.
pub fn uncompress(src: &[u8], dst: &mut Vec<u8>) -> (r: Result<(), FrameError>)
    ensures
        match snappy_decompressed(src@) {
            Some(d) => r is Ok && final(dst)@ == d,
            None => r == Err::<(), FrameError>(FrameError::CorruptBlock) && final(dst)@ == old(dst)@,
        },
{
    match decompress_block(src) {
        Some(d) => {
            *dst = d;
            Ok(())
        },
        None => Err(FrameError::CorruptBlock),
    }
}

} // verus!
