//! The encoding side: a push-style state machine that cuts the bytes it is
//! given into blocks and frames each compressed block as a chunk.

use vstd::prelude::*;

use crate::format::{
    append_range, decode_frames, frame, le24_bytes, le32_bytes, masked_checksum, masked_crc_of,
    stream_id_chunk, FrameError, BLOCK_SIZE, TAG_COMPRESSED,
};
use crate::laws::lemma_round_trip;
use crate::snappy::{compress_block, snappy_compressed, snappy_decompressed};

verus! {

/// The compressed-data chunk for the block `b`.
pub open spec fn data_chunk(b: Seq<u8>) -> Seq<u8> {
    frame(TAG_COMPRESSED, le32_bytes(masked_crc_of(b)) + snappy_compressed(b))
}

/// What emitting the block `b` appends to the output: the stream identifier
/// first if it was not sent yet, then the block's data chunk.
pub open spec fn emission(header_sent: bool, b: Seq<u8>) -> Seq<u8> {
    if header_sent {
        data_chunk(b)
    } else {
        stream_id_chunk() + data_chunk(b)
    }
}

/// The block codec turns the compressed form of `x` back into `x`, and that
/// form is within the codec's size bound.
pub open spec fn codec_inverts(x: Seq<u8>) -> bool {
    &&& snappy_decompressed(snappy_compressed(x)) == Some(x)
    &&& snappy_compressed(x).len() <= 32 + x.len() + x.len() / 6
}

/// The data chunks of `b` cut into blocks of `BLOCK_SIZE` bytes, the last
/// one possibly shorter.
pub open spec fn encode_blocks(b: Seq<u8>) -> Seq<u8>
    decreases b.len(),
{
    if b.len() == 0 {
        Seq::empty()
    } else if b.len() <= BLOCK_SIZE {
        data_chunk(b)
    } else {
        data_chunk(b.take(BLOCK_SIZE as int)) + encode_blocks(b.skip(BLOCK_SIZE as int))
    }
}

/// The stream that encoding `b` in one go and closing produces.
pub open spec fn encode_stream(b: Seq<u8>) -> Seq<u8> {
    stream_id_chunk() + encode_blocks(b)
}

/// The codec inverts every block that `encode_blocks` cuts from `b`.
pub open spec fn blocks_invertible(b: Seq<u8>) -> bool
    decreases b.len(),
{
    if b.len() == 0 {
        true
    } else if b.len() <= BLOCK_SIZE {
        codec_inverts(b)
    } else {
        codec_inverts(b.take(BLOCK_SIZE as int)) && blocks_invertible(b.skip(BLOCK_SIZE as int))
    }
}

/// Adding one block to a run of whole blocks adds one data chunk.
proof fn lemma_encode_append(a: Seq<u8>, c: Seq<u8>)
    requires
        a.len() % (BLOCK_SIZE as nat) == 0,
        0 < c.len() <= BLOCK_SIZE,
    ensures
        encode_blocks(a + c) == encode_blocks(a) + data_chunk(c),
        blocks_invertible(a) && codec_inverts(c) ==> blocks_invertible(a + c),
    decreases a.len(),
{
    let bs = BLOCK_SIZE as int;
    if a.len() == 0 {
        assert(a + c =~= c);
        assert(Seq::<u8>::empty() + data_chunk(c) =~= data_chunk(c));
    } else {
        let t = a.skip(bs);
        assert((a + c).take(bs) =~= a.take(bs));
        assert((a + c).skip(bs) =~= t + c);
        lemma_encode_append(t, c);
        if a.len() == bs {
            assert(a.take(bs) =~= a);
            assert(t =~= Seq::<u8>::empty());
            assert(t + c =~= c);
            assert(encode_blocks(a) + data_chunk(c) =~= data_chunk(a) + (Seq::<u8>::empty() + data_chunk(c)));
        } else {
            assert(encode_blocks(a) + data_chunk(c) =~= data_chunk(a.take(bs)) + (encode_blocks(t) + data_chunk(c)));
        }
    }
}

/// Appends the three little-endian bytes of `n`.
fn push_le24(v: &mut Vec<u8>, n: usize)
    requires
        n < 0x100_0000,
    ensures
        final(v)@ == old(v)@ + le24_bytes(n as nat),
{
    v.push((n % 256) as u8);
    v.push(((n / 256) % 256) as u8);
    v.push(((n / 65536) % 256) as u8);
    assert(final(v)@ =~= old(v)@ + le24_bytes(n as nat));
}

/// Appends the four little-endian bytes of `x`.
fn push_le32(v: &mut Vec<u8>, x: u32)
    ensures
        final(v)@ == old(v)@ + le32_bytes(x),
{
    v.push((x % 256) as u8);
    v.push(((x / 256) % 256) as u8);
    v.push(((x / 65536) % 256) as u8);
    v.push((x / 16777216) as u8);
    assert(final(v)@ =~= old(v)@ + le32_bytes(x));
}

/// Appends the stream identifier chunk.
fn push_stream_id(v: &mut Vec<u8>)
    ensures
        final(v)@ == old(v)@ + stream_id_chunk(),
{
    v.push(0xff);
    push_le24(v, 6);
    v.push(0x73);
    v.push(0x4e);
    v.push(0x61);
    v.push(0x50);
    v.push(0x70);
    v.push(0x59);
    assert(final(v)@ =~= old(v)@ + stream_id_chunk());
}

/// Encoder of a framed Snappy stream.
///
/// Bytes given to [`Compressor::write`] gather in a block of at most
/// 64 KiB; a full block, [`Compressor::flush`] and [`Compressor::close`]
/// turn it into a compressed-data chunk, preceded once by the stream
/// identifier. The encoded bytes wait in an output buffer that the caller
/// empties with [`Compressor::take_output`] and sends to its sink.
#[derive(Debug)]
pub struct Compressor {
    header_sent: bool,
    closed: bool,
    /// Uncompressed bytes of the block under way.
    block: Vec<u8>,
    /// Encoded bytes not yet taken by the caller.
    output: Vec<u8>,
}

impl Compressor {
    pub closed spec fn header_sent(&self) -> bool {
        self.header_sent
    }

    pub closed spec fn is_closed(&self) -> bool {
        self.closed
    }

    /// Uncompressed bytes waiting for their chunk.
    pub closed spec fn block(&self) -> Seq<u8> {
        self.block@
    }

    /// Encoded bytes waiting to be taken.
    pub closed spec fn output(&self) -> Seq<u8> {
        self.output@
    }

    pub open spec fn wf(&self) -> bool {
        &&& self.block().len() < BLOCK_SIZE
        &&& self.is_closed() ==> self.block().len() == 0
    }

    /// An encoder that has sent nothing yet.
    pub fn new() -> (r: Compressor)
        ensures
            r.wf(),
            !r.header_sent(),
            !r.is_closed(),
            r.block().len() == 0,
            r.output().len() == 0,
    {
        Compressor { header_sent: false, closed: false, block: Vec::new(), output: Vec::new() }
    }

    /// Emits the block under way as a data chunk, preceded by the stream
    /// identifier if it was not sent yet, and starts a new block.
    fn compress_and_write(&mut self)
        requires
            old(self).block@.len() <= BLOCK_SIZE,
        ensures
            final(self).header_sent,
            final(self).closed == old(self).closed,
            final(self).block@.len() == 0,
            final(self).output@ == old(self).output@ + emission(old(self).header_sent, old(self).block@),
            codec_inverts(old(self).block@),
    {
        if !self.header_sent {
            push_stream_id(&mut self.output);
            self.header_sent = true;
        }
        let ghost before = self.output@;
        let sum = masked_checksum(self.block.as_slice());
        let compressed = compress_block(self.block.as_slice());
        self.output.push(TAG_COMPRESSED);
        push_le24(&mut self.output, 4 + compressed.len());
        push_le32(&mut self.output, sum);
        append_range(&mut self.output, compressed.as_slice(), 0, compressed.len());
        proof {
            assert(self.output@ =~= before + data_chunk(old(self).block@));
            assert(before + data_chunk(old(self).block@) =~= old(self).output@ + emission(
                old(self).header_sent,
                old(self).block@,
            ));
        }
        self.block.clear();
    }

    /// Takes as many of `data`'s bytes as fit in the block under way and
    /// returns how many. A block that becomes full is emitted at once.
    pub fn write(&mut self, data: &[u8]) -> (n: usize)
        requires
            old(self).wf(),
            !old(self).is_closed(),
        ensures
            final(self).wf(),
            !final(self).is_closed(),
            n as int == if data@.len() < BLOCK_SIZE - old(self).block().len() {
                data@.len() as int
            } else {
                BLOCK_SIZE - old(self).block().len()
            },
            ({
                let b = old(self).block() + data@.take(n as int);
                if b.len() == BLOCK_SIZE {
                    &&& final(self).block().len() == 0
                    &&& final(self).output() == old(self).output() + emission(old(self).header_sent(), b)
                    &&& final(self).header_sent()
                    &&& codec_inverts(b)
                } else {
                    &&& final(self).block() == b
                    &&& final(self).output() == old(self).output()
                    &&& final(self).header_sent() == old(self).header_sent()
                }
            }),
    {
        let room = BLOCK_SIZE - self.block.len();
        let n = if data.len() < room {
            data.len()
        } else {
            room
        };
        append_range(&mut self.block, data, 0, n);
        assert(data@.subrange(0, n as int) =~= data@.take(n as int));
        if self.block.len() == BLOCK_SIZE {
            self.compress_and_write();
        }
        n
    }

    /// Emits the block under way, if it holds any byte. With an empty block
    /// nothing is emitted.
    pub fn flush(&mut self)
        requires
            old(self).wf(),
        ensures
            final(self).wf(),
            final(self).is_closed() == old(self).is_closed(),
            final(self).block().len() == 0,
            old(self).block().len() == 0 ==> *final(self) == *old(self),
            old(self).block().len() > 0 ==> {
                &&& final(self).output() == old(self).output() + emission(
                    old(self).header_sent(),
                    old(self).block(),
                )
                &&& final(self).header_sent()
                &&& codec_inverts(old(self).block())
            },
    {
        if self.block.len() > 0 {
            self.compress_and_write();
        }
    }

    /// Ends the stream: emits the block under way, or the stream identifier
    /// alone if nothing was sent yet. Only the first call has an effect.
    pub fn close(&mut self)
        requires
            old(self).wf(),
        ensures
            final(self).wf(),
            final(self).is_closed(),
            final(self).block().len() == 0,
            old(self).is_closed() ==> *final(self) == *old(self),
            !old(self).is_closed() ==> {
                &&& final(self).header_sent()
                &&& if old(self).block().len() > 0 {
                    &&& final(self).output() == old(self).output() + emission(
                        old(self).header_sent(),
                        old(self).block(),
                    )
                    &&& codec_inverts(old(self).block())
                } else if old(self).header_sent() {
                    final(self).output() == old(self).output()
                } else {
                    final(self).output() == old(self).output() + stream_id_chunk()
                }
            },
    {
        if self.closed {
            return;
        }
        if self.block.len() > 0 {
            self.compress_and_write();
        } else if !self.header_sent {
            push_stream_id(&mut self.output);
            self.header_sent = true;
        }
        self.closed = true;
    }

    /// Hands over the encoded bytes produced so far.
    pub fn take_output(&mut self) -> (r: Vec<u8>)
        ensures
            r@ == old(self).output(),
            final(self).output().len() == 0,
            final(self).block() == old(self).block(),
            final(self).header_sent() == old(self).header_sent(),
            final(self).is_closed() == old(self).is_closed(),
    {
        let mut r: Vec<u8> = Vec::new();
        std::mem::swap(&mut r, &mut self.output);
        r
    }
}

/// Encodes `data` in one go into a complete framed stream, which decodes
/// back to `data` under every configuration of the decoder.
pub fn compress(data: &[u8]) -> (r: Vec<u8>)
    ensures
        r@ == encode_stream(data@),
        blocks_invertible(data@),
        forall|check_crc: bool, check_stream_identifier: bool|
            #[trigger] decode_frames(r@, check_crc, check_stream_identifier) == Ok::<
                Seq<u8>,
                FrameError,
            >(data@),
{
    let mut comp = Compressor::new();
    let mut i: usize = 0;
    let ghost bs = BLOCK_SIZE as int;
    assert(data@.take(0) =~= Seq::<u8>::empty());
    while i < data.len()
        invariant
            bs == BLOCK_SIZE,
            comp.wf(),
            !comp.is_closed(),
            i <= data@.len(),
            comp.block().len() <= i,
            (i - comp.block().len()) % bs == 0,
            comp.block() == data@.subrange(i - comp.block().len(), i as int),
            comp.header_sent() == (i - comp.block().len() > 0),
            comp.output() == if i - comp.block().len() > 0 {
                encode_stream(data@.take(i - comp.block().len()))
            } else {
                Seq::empty()
            },
            blocks_invertible(data@.take(i - comp.block().len())),
        decreases data@.len() - i,
    {
        let ghost k = i - comp.block().len();
        let ghost out0 = comp.output();
        let n = comp.write(&data[i..data.len()]);
        proof {
            let b = data@.subrange(k, i + n);
            assert(data@.subrange(i as int, data@.len() as int).take(n as int) =~= data@.subrange(i as int, i + n));
            assert(data@.subrange(k, i as int) + data@.subrange(i as int, i + n) =~= b);
            assert(b.len() == i + n - k);
            if b.len() == BLOCK_SIZE {
                assert(i + n == k + bs);
                assert((k + bs) % bs == 0) by (nonlinear_arith)
                    requires
                        k % bs == 0,
                        bs > 0,
                ;
                assert(data@.take(k) + b =~= data@.take(k + bs));
                lemma_encode_append(data@.take(k), b);
                if k > 0 {
                    assert(out0 + data_chunk(b) =~= encode_stream(data@.take(k + bs)));
                } else {
                    assert(data@.take(k) =~= Seq::<u8>::empty());
                    assert(Seq::<u8>::empty() + (stream_id_chunk() + data_chunk(b)) =~= encode_stream(data@.take(k + bs)));
                }
            }
        }
        i = i + n;
    }
    let ghost k = i - comp.block().len();
    let ghost out0 = comp.output();
    let ghost b = comp.block();
    comp.close();
    proof {
        if b.len() > 0 {
            assert(data@.take(k) + b =~= data@);
            lemma_encode_append(data@.take(k), b);
            if k > 0 {
                assert(out0 + data_chunk(b) =~= encode_stream(data@));
            } else {
                assert(data@.take(k) =~= Seq::<u8>::empty());
                assert(Seq::<u8>::empty() + (stream_id_chunk() + data_chunk(b)) =~= encode_stream(data@));
            }
        } else {
            assert(data@.take(k) =~= data@);
            if k == 0 {
                assert(Seq::<u8>::empty() + stream_id_chunk() =~= encode_stream(data@));
            }
        }
    }
    let r = comp.take_output();
    proof {
        assert forall|check_crc: bool, check_stream_identifier: bool|
            #[trigger] decode_frames(r@, check_crc, check_stream_identifier) == Ok::<
                Seq<u8>,
                FrameError,
            >(data@) by {
            lemma_round_trip(data@, check_crc, check_stream_identifier);
        }
    }
    r
}

} // verus!
