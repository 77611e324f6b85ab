//! Properties of the wire format that relate encoding and decoding.

use vstd::prelude::*;

use crate::snappy::{snappy_compressed, snappy_decompressed};
use crate::compress::{blocks_invertible, codec_inverts, data_chunk, encode_blocks, encode_stream};
use crate::decompress::prepend;
use crate::format::{
    announced_len, chunk_content, decode_frames, frame, le24_at, le24_bytes, le32_at, le32_bytes,
    masked_crc_of, stream_id_chunk, stream_id_payload, is_skippable, is_unskippable, FrameError,
    BLOCK_SIZE, MAX_CHUNK_LEN, TAG_COMPRESSED, TAG_RAW,
};

verus! {

/// The 3-byte length field reads back as the length written.
pub proof fn lemma_le24_round_trip(n: nat)
    requires
        n <= MAX_CHUNK_LEN,
    ensures
        le24_at(le24_bytes(n), 0) == n,
{
    let b = le24_bytes(n);
    assert(b[0] as nat + b[1] as nat * 256 + b[2] as nat * 65536 == n) by (nonlinear_arith)
        requires
            b[0] as nat == n % 256,
            b[1] as nat == (n / 256) % 256,
            b[2] as nat == (n / 65536) % 256,
            n < 0x100_0000,
    ;
}

/// The 4-byte checksum field reads back as the value written.
pub proof fn lemma_le32_round_trip(v: u32)
    ensures
        le32_at(le32_bytes(v), 0) == v,
{
    let b = le32_bytes(v);
    let n = v as nat;
    assert(b[0] as nat + b[1] as nat * 256 + b[2] as nat * 65536 + b[3] as nat * 16777216 == n)
        by (nonlinear_arith)
        requires
            b[0] as nat == n % 256,
            b[1] as nat == (n / 256) % 256,
            b[2] as nat == (n / 65536) % 256,
            b[3] as nat == n / 16777216,
            n < 0x1_0000_0000,
    ;
}

/// A chunk written with `frame`, followed by more bytes, decodes to that
/// chunk's content in front of the decoding of what follows.
pub proof fn lemma_decode_frame(
    tag: u8,
    payload: Seq<u8>,
    rest: Seq<u8>,
    check_crc: bool,
    check_stream_identifier: bool,
)
    requires
        payload.len() <= MAX_CHUNK_LEN,
    ensures
        decode_frames(frame(tag, payload) + rest, check_crc, check_stream_identifier) == match chunk_content(
            tag,
            payload,
            check_crc,
            check_stream_identifier,
        ) {
            Err(e) => Err(e),
            Ok(c) => prepend(c, decode_frames(rest, check_crc, check_stream_identifier)),
        },
{
    let s = frame(tag, payload) + rest;
    let h = le24_bytes(payload.len());
    lemma_le24_round_trip(payload.len());
    assert(s[1] == h[0] && s[2] == h[1] && s[3] == h[2]);
    assert(announced_len(s) == payload.len());
    let end = 4 + payload.len();
    assert(s.subrange(4, end as int) =~= payload);
    assert(s.skip(end as int) =~= rest);
}

/// The stream identifier chunk contributes nothing, whatever the
/// configuration.
pub proof fn lemma_decode_stream_id(rest: Seq<u8>, check_crc: bool, check_stream_identifier: bool)
    ensures
        decode_frames(stream_id_chunk() + rest, check_crc, check_stream_identifier)
            == decode_frames(rest, check_crc, check_stream_identifier),
{
    lemma_decode_frame(0xff, stream_id_payload(), rest, check_crc, check_stream_identifier);
    let r = decode_frames(rest, check_crc, check_stream_identifier);
    if r is Ok {
        assert(Seq::<u8>::empty() + r->Ok_0 =~= r->Ok_0);
    }
}

/// A data chunk that the encoder made of `x` decodes back to `x`.
pub proof fn lemma_decode_data_chunk(
    x: Seq<u8>,
    rest: Seq<u8>,
    check_crc: bool,
    check_stream_identifier: bool,
)
    requires
        x.len() <= BLOCK_SIZE,
        codec_inverts(x),
    ensures
        decode_frames(data_chunk(x) + rest, check_crc, check_stream_identifier) == prepend(
            x,
            decode_frames(rest, check_crc, check_stream_identifier),
        ),
{
    let sum = le32_bytes(masked_crc_of(x));
    let payload = sum + snappy_compressed(x);
    lemma_decode_frame(TAG_COMPRESSED, payload, rest, check_crc, check_stream_identifier);
    lemma_le32_round_trip(masked_crc_of(x));
    assert(payload.skip(4) =~= snappy_compressed(x));
    assert(payload[0] == sum[0] && payload[1] == sum[1] && payload[2] == sum[2] && payload[3] == sum[3]);
    assert(le32_at(payload, 0) == le32_at(sum, 0));
}

/// The data chunks of `b` decode back to `b`.
pub proof fn lemma_decode_encode_blocks(b: Seq<u8>, check_crc: bool, check_stream_identifier: bool)
    requires
        blocks_invertible(b),
    ensures
        decode_frames(encode_blocks(b), check_crc, check_stream_identifier) == Ok::<Seq<u8>, FrameError>(b),
    decreases b.len(),
{
    let bs = BLOCK_SIZE as int;
    let none = Seq::<u8>::empty();
    if b.len() == 0 {
    } else if b.len() <= BLOCK_SIZE {
        assert(data_chunk(b) + none =~= data_chunk(b));
        lemma_decode_data_chunk(b, none, check_crc, check_stream_identifier);
        assert(b + none =~= b);
    } else {
        lemma_decode_encode_blocks(b.skip(bs), check_crc, check_stream_identifier);
        lemma_decode_data_chunk(b.take(bs), encode_blocks(b.skip(bs)), check_crc, check_stream_identifier);
        assert(b.take(bs) + b.skip(bs) =~= b);
    }
}

/// Round trip: decoding the encoding of `b` gives back exactly `b`, under
/// every configuration of the decoder, for a block codec that inverts its
/// own output on the blocks of `b` (the encoder establishes this for every
/// block it compresses).
pub proof fn lemma_round_trip(b: Seq<u8>, check_crc: bool, check_stream_identifier: bool)
    requires
        blocks_invertible(b),
    ensures
        decode_frames(encode_stream(b), check_crc, check_stream_identifier) == Ok::<Seq<u8>, FrameError>(b),
{
    lemma_decode_stream_id(encode_blocks(b), check_crc, check_stream_identifier);
    lemma_decode_encode_blocks(b, check_crc, check_stream_identifier);
}

/// A stream that decodes without error, followed by more bytes: its content
/// comes first, then the decoding of the rest.
pub proof fn lemma_decode_concat(
    a: Seq<u8>,
    b: Seq<u8>,
    check_crc: bool,
    check_stream_identifier: bool,
)
    requires
        decode_frames(a, check_crc, check_stream_identifier) is Ok,
    ensures
        decode_frames(a + b, check_crc, check_stream_identifier) == prepend(
            decode_frames(a, check_crc, check_stream_identifier)->Ok_0,
            decode_frames(b, check_crc, check_stream_identifier),
        ),
    decreases a.len(),
{
    let rb = decode_frames(b, check_crc, check_stream_identifier);
    if a.len() == 0 {
        assert(a + b =~= b);
        if rb is Ok {
            assert(Seq::<u8>::empty() + rb->Ok_0 =~= rb->Ok_0);
        }
    } else {
        let s = a + b;
        let end = 4 + announced_len(a) as int;
        assert(s[1] == a[1] && s[2] == a[2] && s[3] == a[3]);
        assert(s.subrange(4, end) =~= a.subrange(4, end));
        assert(s.skip(end) =~= a.skip(end) + b);
        lemma_decode_concat(a.skip(end), b, check_crc, check_stream_identifier);
        let c = chunk_content(a[0], a.subrange(4, end), check_crc, check_stream_identifier)->Ok_0;
        let r = decode_frames(a.skip(end), check_crc, check_stream_identifier)->Ok_0;
        if rb is Ok {
            assert(c + (r + rb->Ok_0) =~= (c + r) + rb->Ok_0);
        }
    }
}

/// Truncation: after any stream that decodes without error, a chunk cut
/// short anywhere after its first byte and before its last makes decoding
/// fail with `TruncatedChunk`.
pub proof fn lemma_truncation(
    prior: Seq<u8>,
    tag: u8,
    payload: Seq<u8>,
    k: int,
    check_crc: bool,
    check_stream_identifier: bool,
)
    requires
        payload.len() <= MAX_CHUNK_LEN,
        0 < k < 4 + payload.len(),
        decode_frames(prior, check_crc, check_stream_identifier) is Ok,
    ensures
        decode_frames(prior + frame(tag, payload).take(k), check_crc, check_stream_identifier)
            == Err::<Seq<u8>, FrameError>(FrameError::TruncatedChunk),
{
    let f = frame(tag, payload);
    let t = f.take(k);
    if k >= 4 {
        let h = le24_bytes(payload.len());
        lemma_le24_round_trip(payload.len());
        assert(t[1] == h[0] && t[2] == h[1] && t[3] == h[2]);
        assert(announced_len(t) == payload.len());
    }
    assert(decode_frames(t, check_crc, check_stream_identifier) == Err::<Seq<u8>, FrameError>(
        FrameError::TruncatedChunk,
    ));
    lemma_decode_concat(prior, t, check_crc, check_stream_identifier);
}

/// Reserved tags: a chunk tagged `0x02..=0x7f` stops decoding with
/// `UnsupportedChunk`, and a chunk tagged `0x80..=0xfd` is skipped and
/// contributes nothing, whatever its payload and the configuration.
pub proof fn lemma_reserved_tags(
    tag: u8,
    payload: Seq<u8>,
    rest: Seq<u8>,
    check_crc: bool,
    check_stream_identifier: bool,
)
    requires
        payload.len() <= MAX_CHUNK_LEN,
    ensures
        is_unskippable(tag) ==> decode_frames(
            frame(tag, payload) + rest,
            check_crc,
            check_stream_identifier,
        ) == Err::<Seq<u8>, FrameError>(FrameError::UnsupportedChunk),
        is_skippable(tag) ==> decode_frames(frame(tag, payload) + rest, check_crc, check_stream_identifier)
            == decode_frames(rest, check_crc, check_stream_identifier),
{
    lemma_decode_frame(tag, payload, rest, check_crc, check_stream_identifier);
    let r = decode_frames(rest, check_crc, check_stream_identifier);
    if r is Ok {
        assert(Seq::<u8>::empty() + r->Ok_0 =~= r->Ok_0);
    }
}

/// The content that a data chunk with payload `body` (after its checksum)
/// decodes to, before any checksum test.
pub open spec fn data_content(tag: u8, body: Seq<u8>) -> Option<Seq<u8>> {
    if tag == TAG_RAW {
        Some(body)
    } else {
        snappy_decompressed(body)
    }
}

/// Checksum enforcement: a data chunk whose stored checksum differs from
/// the checksum of its content fails with `ChecksumMismatch` when checksums
/// are checked, and decodes to its content when they are not.
pub proof fn lemma_checksum_enforced(
    tag: u8,
    stored: u32,
    body: Seq<u8>,
    rest: Seq<u8>,
    check_stream_identifier: bool,
)
    requires
        tag == TAG_RAW || tag == TAG_COMPRESSED,
        4 + body.len() <= MAX_CHUNK_LEN,
        data_content(tag, body) is Some,
        stored != masked_crc_of(data_content(tag, body)->Some_0),
    ensures
        decode_frames(frame(tag, le32_bytes(stored) + body) + rest, true, check_stream_identifier)
            == Err::<Seq<u8>, FrameError>(FrameError::ChecksumMismatch),
        decode_frames(frame(tag, le32_bytes(stored) + body) + rest, false, check_stream_identifier)
            == prepend(
            data_content(tag, body)->Some_0,
            decode_frames(rest, false, check_stream_identifier),
        ),
{
    let sum = le32_bytes(stored);
    let payload = sum + body;
    lemma_decode_frame(tag, payload, rest, true, check_stream_identifier);
    lemma_decode_frame(tag, payload, rest, false, check_stream_identifier);
    lemma_le32_round_trip(stored);
    assert(payload.skip(4) =~= body);
    assert(payload[0] == sum[0] && payload[1] == sum[1] && payload[2] == sum[2] && payload[3] == sum[3]);
    assert(le32_at(payload, 0) == le32_at(sum, 0));
}

/// Flipping any one bit of the stored checksum of a raw data chunk that
/// carried the right checksum makes it fail with `ChecksumMismatch` when
/// checksums are checked.
pub proof fn lemma_flipped_checksum_bit(
    raw: Seq<u8>,
    bit: u32,
    rest: Seq<u8>,
    check_stream_identifier: bool,
)
    requires
        4 + raw.len() <= MAX_CHUNK_LEN,
        bit < 32,
    ensures
        decode_frames(
            frame(TAG_RAW, le32_bytes(masked_crc_of(raw) ^ (1u32 << bit)) + raw) + rest,
            true,
            check_stream_identifier,
        ) == Err::<Seq<u8>, FrameError>(FrameError::ChecksumMismatch),
{
    let m = masked_crc_of(raw);
    assert(m ^ (1u32 << bit) != m) by (bit_vector)
        requires
            bit < 32,
    ;
    lemma_checksum_enforced(TAG_RAW, m ^ (1u32 << bit), raw, rest, check_stream_identifier);
}

/// With checksums unchecked, no stream fails with `ChecksumMismatch`.
pub proof fn lemma_unchecked_never_mismatch(s: Seq<u8>, check_stream_identifier: bool)
    ensures
        decode_frames(s, false, check_stream_identifier) != Err::<Seq<u8>, FrameError>(
            FrameError::ChecksumMismatch,
        ),
    decreases s.len(),
{
    if s.len() >= 4 && s.len() >= 4 + announced_len(s) {
        lemma_unchecked_never_mismatch(s.skip(4 + announced_len(s) as int), check_stream_identifier);
    }
}

} // verus!
