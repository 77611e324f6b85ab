//! The wire format: chunk layout, tag policy and the masked CRC32C checksum.

use vstd::prelude::*;

use crate::snappy::{snappy_decompressed, uncompress};

verus! {

/// Largest run of uncompressed bytes the encoder puts into one chunk.
pub const BLOCK_SIZE: usize = 65536;

/// Largest payload the 3-byte length field can describe.
pub const MAX_CHUNK_LEN: usize = 0xff_ffff;

pub const TAG_COMPRESSED: u8 = 0x00;
pub const TAG_RAW: u8 = 0x01;
pub const TAG_PADDING: u8 = 0xfe;
pub const TAG_STREAM_ID: u8 = 0xff;

/// What can go wrong while decoding a framed stream. Every one of them is
/// fatal to the stream.
#[derive(Clone, Copy, Debug, PartialEq, Eq, Structural)]
pub enum FrameError {
    /// The input ended inside a chunk (or a data chunk is too short to hold
    /// its checksum).
    TruncatedChunk,
    /// A stream identifier chunk does not hold `sNaPpY`.
    InvalidStreamIdentifier,
    /// A data chunk's stored checksum does not match its content.
    ChecksumMismatch,
    /// A chunk with a reserved, unskippable tag (`0x02..=0x7f`).
    UnsupportedChunk,
    /// The block codec refused a compressed payload.
    CorruptBlock,
}

/// The CRC32C (Castagnoli) checksum of a byte sequence.
pub uninterp spec fn crc32c_of(b: Seq<u8>) -> u32;

/// Relies on crc::crc32::checksum_castagnoli: the CRC32C of the bytes, a
/// function of the bytes alone.
#[verifier::external_body]
fn crc32c(b: &[u8]) -> (r: u32)
    ensures
        r == crc32c_of(b@),
{
    crc::crc32::checksum_castagnoli(b)
}

/// The masking transform: rotate right by 15 bits, then add `0xa282ead8`
/// modulo 2^32.
pub open spec fn mask(c: u32) -> u32 {
    let rotated = (c >> 15u32) | (c << 17u32);
    ((rotated as int + 0xa282ead8int) % 0x1_0000_0000int) as u32
}

/// The checksum stored in a data chunk for the uncompressed bytes `b`.
pub open spec fn masked_crc_of(b: Seq<u8>) -> u32 {
    mask(crc32c_of(b))
}

/// Computes the masked checksum of `b`.
pub fn masked_checksum(b: &[u8]) -> (r: u32)
    ensures
        r == masked_crc_of(b@),
{
    let c = crc32c(b);
    let rot = (c >> 15u32) | (c << 17u32);
    ((rot as u64 + 0xa282ead8u64) % 0x1_0000_0000u64) as u32
}


/// The six bytes `sNaPpY` that a stream identifier chunk carries.
pub open spec fn stream_id_payload() -> Seq<u8> {
    seq![0x73u8, 0x4eu8, 0x61u8, 0x50u8, 0x70u8, 0x59u8]
}

/// The little-endian value of the three bytes `b[i..i + 3]`.
pub open spec fn le24_at(b: Seq<u8>, i: int) -> nat {
    (b[i] as nat + b[i + 1] as nat * 256 + b[i + 2] as nat * 65536) as nat
}

/// The little-endian value of the four bytes `b[i..i + 4]`.
pub open spec fn le32_at(b: Seq<u8>, i: int) -> u32 {
    (b[i] as nat + b[i + 1] as nat * 256 + b[i + 2] as nat * 65536 + b[i + 3] as nat
        * 16777216) as u32
}

/// The three little-endian bytes of `n`.
pub open spec fn le24_bytes(n: nat) -> Seq<u8> {
    seq![(n % 256) as u8, ((n / 256) % 256) as u8, ((n / 65536) % 256) as u8]
}

/// The four little-endian bytes of `v`.
pub open spec fn le32_bytes(v: u32) -> Seq<u8> {
    seq![(v % 256) as u8, ((v / 256) % 256) as u8, ((v / 65536) % 256) as u8, (v / 16777216) as u8]
}

/// One chunk on the wire: tag, 3-byte little-endian length, payload.
pub open spec fn frame(tag: u8, payload: Seq<u8>) -> Seq<u8> {
    seq![tag] + le24_bytes(payload.len()) + payload
}

/// The stream identifier chunk, `FF 06 00 00 73 4E 61 50 70 59`.
pub open spec fn stream_id_chunk() -> Seq<u8> {
    frame(TAG_STREAM_ID, stream_id_payload())
}

/// Tags `0x02..=0x7f`: reserved, and a decoder must stop on them.
pub open spec fn is_unskippable(tag: u8) -> bool {
    0x02 <= tag <= 0x7f
}

/// Tags `0x80..=0xfd`: reserved, and a decoder skips them.
pub open spec fn is_skippable(tag: u8) -> bool {
    0x80 <= tag <= 0xfd
}

/// What one complete chunk contributes to the decoded stream, or why it is
/// refused.
pub open spec fn chunk_content(
    tag: u8,
    payload: Seq<u8>,
    check_crc: bool,
    check_stream_identifier: bool,
) -> Result<Seq<u8>, FrameError> {
    if tag == TAG_STREAM_ID {
        if !check_stream_identifier || payload == stream_id_payload() {
            Ok(Seq::empty())
        } else {
            Err(FrameError::InvalidStreamIdentifier)
        }
    } else if tag == TAG_COMPRESSED || tag == TAG_RAW {
        if payload.len() < 4 {
            Err(FrameError::TruncatedChunk)
        } else {
            let body = payload.skip(4);
            let content = if tag == TAG_COMPRESSED {
                snappy_decompressed(body)
            } else {
                Some(body)
            };
            match content {
                None => Err(FrameError::CorruptBlock),
                Some(d) => if check_crc && le32_at(payload, 0) != masked_crc_of(d) {
                    Err(FrameError::ChecksumMismatch)
                } else {
                    Ok(d)
                },
            }
        }
    } else if is_unskippable(tag) {
        Err(FrameError::UnsupportedChunk)
    } else {
        Ok(Seq::empty())
    }
}

/// Payload length announced by the chunk header at the front of `s`.
pub open spec fn announced_len(s: Seq<u8>) -> nat
    recommends
        s.len() >= 4,
{
    le24_at(s, 1)
}

/// Decodes a whole framed stream: the concatenation of every chunk's
/// content, or the first error met from the front.
pub open spec fn decode_frames(s: Seq<u8>, check_crc: bool, check_stream_identifier: bool) -> Result<
    Seq<u8>,
    FrameError,
>
    decreases s.len(),
{
    if s.len() == 0 {
        Ok(Seq::empty())
    } else if s.len() < 4 || s.len() < 4 + announced_len(s) {
        Err(FrameError::TruncatedChunk)
    } else {
        let end = 4 + announced_len(s) as int;
        match chunk_content(s[0], s.subrange(4, end), check_crc, check_stream_identifier) {
            Err(e) => Err(e),
            Ok(c) => match decode_frames(s.skip(end), check_crc, check_stream_identifier) {
                Err(e) => Err(e),
                Ok(rest) => Ok(c + rest),
            },
        }
    }
}

/// The decoded view of an executable result.
pub open spec fn result_view(r: Result<Vec<u8>, FrameError>) -> Result<Seq<u8>, FrameError> {
    match r {
        Ok(v) => Ok(v@),
        Err(e) => Err(e),
    }
}

/// A fresh vector holding `s[from..to]`.
pub fn copy_range(s: &[u8], from: usize, to: usize) -> (r: Vec<u8>)
    requires
        from <= to <= s@.len(),
    ensures
        r@ == s@.subrange(from as int, to as int),
{
    let mut r: Vec<u8> = Vec::with_capacity(to - from);
    let mut i: usize = from;
    while i < to
        invariant
            from <= i <= to <= s@.len(),
            r@ == s@.subrange(from as int, i as int),
        decreases to - i,
    {
        r.push(s[i]);
        i = i + 1;
    }
    r
}

/// Appends `s[from..to]` to `v`.
pub fn append_range(v: &mut Vec<u8>, s: &[u8], from: usize, to: usize)
    requires
        from <= to <= s@.len(),
    ensures
        final(v)@ == old(v)@ + s@.subrange(from as int, to as int),
{
    let mut i: usize = from;
    while i < to
        invariant
            from <= i <= to <= s@.len(),
            v@ == old(v)@ + s@.subrange(from as int, i as int),
        decreases to - i,
    {
        v.push(s[i]);
        i = i + 1;
    }
}

/// Reads the little-endian `u32` at `b[i..i + 4]`.
pub fn read_le32(b: &[u8], i: usize) -> (r: u32)
    requires
        i + 4 <= b@.len(),
    ensures
        r == le32_at(b@, i as int),
{
    b[i] as u32 + b[i + 1] as u32 * 256 + b[i + 2] as u32 * 65536 + b[i + 3] as u32 * 16777216
}

/// Reads the little-endian 24-bit value at `b[i..i + 3]`.
pub fn read_le24(b: &[u8], i: usize) -> (r: usize)
    requires
        i + 3 <= b@.len(),
    ensures
        r as nat == le24_at(b@, i as int),
        r <= MAX_CHUNK_LEN,
{
    b[i] as usize + b[i + 1] as usize * 256 + b[i + 2] as usize * 65536
}

/// Whether `p` is exactly `sNaPpY`.
pub fn is_stream_id(p: &[u8]) -> (r: bool)
    ensures
        r == (p@ == stream_id_payload()),
{
    if p.len() != 6 {
        return false;
    }
    let r = p[0] == 0x73 && p[1] == 0x4e && p[2] == 0x61 && p[3] == 0x50 && p[4] == 0x70 && p[5]
        == 0x59;
    proof {
        if r {
            assert(p@ =~= stream_id_payload());
        }
    }
    r
}


/// Classifies and validates one complete chunk: its contribution to the
/// decoded stream, or the error that stops decoding.
pub fn decode_chunk(tag: u8, payload: &[u8], check_crc: bool, check_stream_identifier: bool) -> (r:
    Result<Vec<u8>, FrameError>)
    ensures
        result_view(r) == chunk_content(tag, payload@, check_crc, check_stream_identifier),
{
    if tag == TAG_STREAM_ID {
        if !check_stream_identifier || is_stream_id(payload) {
            Ok(Vec::new())
        } else {
            Err(FrameError::InvalidStreamIdentifier)
        }
    } else if tag == TAG_COMPRESSED || tag == TAG_RAW {
        if payload.len() < 4 {
            return Err(FrameError::TruncatedChunk);
        }
        let stored = read_le32(payload, 0);
        let body = copy_range(payload, 4, payload.len());
        assert(body@ =~= payload@.skip(4));
        let content = if tag == TAG_COMPRESSED {
            let mut d: Vec<u8> = Vec::new();
            match uncompress(body.as_slice(), &mut d) {
                Ok(()) => d,
                Err(e) => return Err(e),
            }
        } else {
            body
        };
        if check_crc && stored != masked_checksum(content.as_slice()) {
            Err(FrameError::ChecksumMismatch)
        } else {
            Ok(content)
        }
    } else if 0x02 <= tag && tag <= 0x7f {
        Err(FrameError::UnsupportedChunk)
    } else {
        Ok(Vec::new())
    }
}

} // verus!
