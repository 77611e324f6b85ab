//! The decoding side: a pull-style state machine that assembles chunks from
//! the bytes it is handed and exposes their decoded content.

use vstd::prelude::*;

use crate::format::{
    announced_len, chunk_content, decode_chunk, decode_frames, result_view, FrameError,
    copy_range, append_range, read_le24,
};

verus! {

/// Where a decoder stands in its stream.
#[derive(Clone, Copy, Debug, PartialEq, Eq, Structural)]
pub enum DecoderState {
    /// More chunks may follow.
    Open,
    /// The input ended cleanly at a chunk boundary.
    Ended,
    /// Decoding stopped on this error; nothing more will be decoded.
    Failed(FrameError),
}

/// Whether the bytes `p` hold a whole chunk: header and announced payload.
pub open spec fn is_complete_chunk(p: Seq<u8>) -> bool {
    p.len() >= 4 && p.len() == 4 + announced_len(p)
}

/// `a` in front of a decoding result.
pub open spec fn prepend(a: Seq<u8>, r: Result<Seq<u8>, FrameError>) -> Result<Seq<u8>, FrameError> {
    match r {
        Ok(x) => Ok(a + x),
        Err(e) => Err(e),
    }
}

/// Decoder of a framed Snappy stream.
///
/// The caller pulls bytes from its source: it asks [`Decompressor::wanted`]
/// how many bytes complete the chunk under way, hands what it read to
/// [`Decompressor::supply`], reports the end of the source with
/// [`Decompressor::end_of_input`], and takes decoded bytes with
/// [`Decompressor::read`]. The decoder never holds more than one chunk.
#[derive(Debug)]
pub struct Decompressor {
    check_crc: bool,
    check_stream_identifier: bool,
    /// Bytes of the chunk being assembled, header included.
    pending: Vec<u8>,
    /// Decoded content of the current chunk.
    content: Vec<u8>,
    /// How much of `content` was already read.
    position: usize,
    state: DecoderState,
}

impl Decompressor {
    /// Whether data chunks' checksums are verified.
    pub closed spec fn crc_checked(&self) -> bool {
        self.check_crc
    }

    /// Whether stream identifier chunks must hold `sNaPpY`.
    pub closed spec fn identifier_checked(&self) -> bool {
        self.check_stream_identifier
    }

    /// Bytes of the incomplete chunk received so far.
    pub closed spec fn pending(&self) -> Seq<u8> {
        self.pending@
    }

    /// Decoded bytes not read yet.
    pub closed spec fn available(&self) -> Seq<u8> {
        self.content@.skip(self.position as int)
    }

    pub closed spec fn state(&self) -> DecoderState {
        self.state
    }

    pub closed spec fn wf(&self) -> bool {
        &&& self.position <= self.content@.len()
        &&& !is_complete_chunk(self.pending@)
        &&& (self.pending@.len() >= 4 ==> self.pending@.len() < 4 + announced_len(self.pending@))
        &&& (self.state != DecoderState::Open ==> self.pending@.len() == 0)
        &&& (self.state is Failed ==> self.available().len() == 0)
        &&& (self.available().len() > 0 ==> self.pending@.len() == 0)
    }

    /// How many more bytes the chunk under way needs: none while decoded
    /// bytes wait to be read or once decoding has stopped.
    pub open spec fn need(&self) -> nat {
        if self.state() != DecoderState::Open || self.available().len() > 0 {
            0
        } else if self.pending().len() < 4 {
            (4 - self.pending().len()) as nat
        } else {
            (4 + announced_len(self.pending()) - self.pending().len()) as nat
        }
    }

    /// A decoder at the start of a stream, checking checksums and the
    /// stream identifier.
    pub fn new() -> (r: Decompressor)
        ensures
            r.wf(),
            r.crc_checked(),
            r.identifier_checked(),
            r.pending().len() == 0,
            r.available().len() == 0,
            r.state() == DecoderState::Open,
    {
        Decompressor {
            check_crc: true,
            check_stream_identifier: true,
            pending: Vec::new(),
            content: Vec::new(),
            position: 0,
            state: DecoderState::Open,
        }
    }

    /// The same decoder, verifying checksums or not as `v` says.
    pub fn check_crc(self, v: bool) -> (r: Decompressor)
        requires
            self.wf(),
        ensures
            r.wf(),
            r.crc_checked() == v,
            r.identifier_checked() == self.identifier_checked(),
            r.pending() == self.pending(),
            r.available() == self.available(),
            r.state() == self.state(),
    {
        Decompressor { check_crc: v, ..self }
    }

    /// The same decoder, checking the stream identifier or not as `v` says.
    pub fn check_stream_identifier(self, v: bool) -> (r: Decompressor)
        requires
            self.wf(),
        ensures
            r.wf(),
            r.crc_checked() == self.crc_checked(),
            r.identifier_checked() == v,
            r.pending() == self.pending(),
            r.available() == self.available(),
            r.state() == self.state(),
    {
        Decompressor { check_stream_identifier: v, ..self }
    }

    /// With `v`, turns off both the checksum and the identifier checks;
    /// without, turns both on.
    pub fn fast(self, v: bool) -> (r: Decompressor)
        requires
            self.wf(),
        ensures
            r.wf(),
            r.crc_checked() == !v,
            r.identifier_checked() == !v,
            r.pending() == self.pending(),
            r.available() == self.available(),
            r.state() == self.state(),
    {
        Decompressor { check_crc: !v, check_stream_identifier: !v, ..self }
    }

    pub fn status(&self) -> (r: DecoderState)
        ensures
            r == self.state(),
    {
        self.state
    }

    /// Number of decoded bytes waiting to be read.
    pub fn available_len(&self) -> (r: usize)
        requires
            self.wf(),
        ensures
            r == self.available().len(),
    {
        self.content.len() - self.position
    }

    /// How many bytes to hand to [`Decompressor::supply`] at most.
    pub fn wanted(&self) -> (r: usize)
        requires
            self.wf(),
        ensures
            r == self.need(),
    {
        if self.state != DecoderState::Open || self.position < self.content.len() {
            0
        } else if self.pending.len() < 4 {
            4 - self.pending.len()
        } else {
            let len = read_le24(self.pending.as_slice(), 1);
            4 + len - self.pending.len()
        }
    }

    /// Takes the next `data` bytes of the source. When they complete a
    /// chunk, the chunk is validated and decoded: its content becomes
    /// readable, or decoding stops on its error.
    pub fn supply(&mut self, data: &[u8]) -> (r: Result<(), FrameError>)
        requires
            old(self).wf(),
            0 < data@.len() <= old(self).need(),
        ensures
            final(self).wf(),
            final(self).crc_checked() == old(self).crc_checked(),
            final(self).identifier_checked() == old(self).identifier_checked(),
            ({
                let p = old(self).pending() + data@;
                if is_complete_chunk(p) {
                    final(self).pending().len() == 0 && match chunk_content(
                        p[0],
                        p.skip(4),
                        old(self).crc_checked(),
                        old(self).identifier_checked(),
                    ) {
                        Ok(c) => r is Ok && final(self).available() == c && final(self).state()
                            == DecoderState::Open,
                        Err(e) => r == Err::<(), FrameError>(e) && final(self).available().len()
                            == 0 && final(self).state() == DecoderState::Failed(e),
                    }
                } else {
                    &&& r is Ok
                    &&& final(self).pending() == p
                    &&& final(self).available().len() == 0
                    &&& final(self).state() == DecoderState::Open
                }
            }),
    {
        append_range(&mut self.pending, data, 0, data.len());
        assert(data@.subrange(0, data@.len() as int) =~= data@);
        let ghost p = self.pending@;
        if self.pending.len() >= 4 {
            let len = read_le24(self.pending.as_slice(), 1);
            proof {
                if old(self).pending@.len() >= 4 {
                    assert(p[1] == old(self).pending@[1]);
                    assert(p[2] == old(self).pending@[2]);
                    assert(p[3] == old(self).pending@[3]);
                    assert(announced_len(p) == announced_len(old(self).pending@));
                }
            }
            if self.pending.len() == 4 + len {
                return self.load_chunk();
            }
        }
        Ok(())
    }

    /// Validates and decodes the complete chunk held in `pending`.
    fn load_chunk(&mut self) -> (r: Result<(), FrameError>)
        requires
            old(self).position <= old(self).content@.len(),
            old(self).state == DecoderState::Open,
            is_complete_chunk(old(self).pending@),
        ensures
            final(self).wf(),
            final(self).check_crc == old(self).check_crc,
            final(self).check_stream_identifier == old(self).check_stream_identifier,
            final(self).pending().len() == 0,
            ({
                let p = old(self).pending@;
                match chunk_content(p[0], p.skip(4), old(self).check_crc, old(self).check_stream_identifier) {
                    Ok(c) => r is Ok && final(self).available() == c && final(self).state()
                        == DecoderState::Open,
                    Err(e) => r == Err::<(), FrameError>(e) && final(self).available().len() == 0
                        && final(self).state() == DecoderState::Failed(e),
                }
            }),
    {
        let tag = self.pending[0];
        let payload = copy_range(self.pending.as_slice(), 4, self.pending.len());
        assert(payload@ =~= self.pending@.skip(4));
        self.pending.clear();
        match decode_chunk(tag, payload.as_slice(), self.check_crc, self.check_stream_identifier) {
            Ok(c) => {
                self.content = c;
                self.position = 0;
                assert(self.content@.skip(0) =~= self.content@);
                Ok(())
            },
            Err(e) => {
                self.content = Vec::new();
                self.position = 0;
                self.state = DecoderState::Failed(e);
                Err(e)
            },
        }
    }

    /// Reports that the source has no more bytes. At a chunk boundary the
    /// stream ends cleanly; inside a chunk it is truncated.
    pub fn end_of_input(&mut self) -> (r: Result<(), FrameError>)
        requires
            old(self).wf(),
        ensures
            final(self).wf(),
            final(self).crc_checked() == old(self).crc_checked(),
            final(self).identifier_checked() == old(self).identifier_checked(),
            final(self).pending().len() == 0,
            final(self).available() == old(self).available(),
            match old(self).state() {
                DecoderState::Failed(e) => r == Err::<(), FrameError>(e) && final(self).state()
                    == old(self).state(),
                _ => if old(self).pending().len() == 0 {
                    r is Ok && final(self).state() == DecoderState::Ended
                } else {
                    r == Err::<(), FrameError>(FrameError::TruncatedChunk) && final(self).state()
                        == DecoderState::Failed(FrameError::TruncatedChunk)
                },
            },
    {
        match self.state {
            DecoderState::Failed(e) => Err(e),
            _ => if self.pending.len() == 0 {
                self.state = DecoderState::Ended;
                Ok(())
            } else {
                self.pending.clear();
                self.state = DecoderState::Failed(FrameError::TruncatedChunk);
                Err(FrameError::TruncatedChunk)
            },
        }
    }

    /// Takes up to `max` decoded bytes, in stream order.
    pub fn read(&mut self, max: usize) -> (r: Vec<u8>)
        requires
            old(self).wf(),
        ensures
            final(self).wf(),
            final(self).crc_checked() == old(self).crc_checked(),
            final(self).identifier_checked() == old(self).identifier_checked(),
            final(self).pending() == old(self).pending(),
            final(self).state() == old(self).state(),
            ({
                let n = if max < old(self).available().len() {
                    max as int
                } else {
                    old(self).available().len() as int
                };
                &&& r@ == old(self).available().take(n)
                &&& final(self).available() == old(self).available().skip(n)
            }),
    {
        let left = self.content.len() - self.position;
        let n = if max < left {
            max
        } else {
            left
        };
        let r = copy_range(self.content.as_slice(), self.position, self.position + n);
        proof {
            let a = self.content@.skip(self.position as int);
            assert(r@ =~= a.take(n as int));
            assert(self.content@.skip(self.position + n) =~= a.skip(n as int));
        }
        self.position = self.position + n;
        r
    }
}

/// Decoding a stream whose first chunk, `s[..k]`, is complete: that chunk's
/// content in front of the decoding of the rest.
pub proof fn lemma_decode_first_chunk(s: Seq<u8>, k: int, check_crc: bool, check_stream_identifier: bool)
    requires
        4 <= k <= s.len(),
        is_complete_chunk(s.take(k)),
    ensures
        decode_frames(s, check_crc, check_stream_identifier) == match chunk_content(
            s[0],
            s.take(k).skip(4),
            check_crc,
            check_stream_identifier,
        ) {
            Err(e) => Err(e),
            Ok(c) => prepend(c, decode_frames(s.skip(k), check_crc, check_stream_identifier)),
        },
{
    let t = s.take(k);
    assert(t[1] == s[1] && t[2] == s[2] && t[3] == s[3]);
    assert(announced_len(t) == announced_len(s));
    assert(s.subrange(4, k) =~= t.skip(4));
}

/// A non-empty stream that ends before its first chunk is complete is
/// truncated.
pub proof fn lemma_decode_cut_chunk(s: Seq<u8>, check_crc: bool, check_stream_identifier: bool)
    requires
        s.len() > 0,
        s.len() >= 4 ==> s.len() < 4 + announced_len(s),
    ensures
        decode_frames(s, check_crc, check_stream_identifier) == Err::<Seq<u8>, FrameError>(
            FrameError::TruncatedChunk,
        ),
{
}

/// One step of decoding from the front: the complete chunk `data[b..e]`
/// either stops decoding or adds its content to what came before.
proof fn lemma_chunk_step(
    data: Seq<u8>,
    b: int,
    e: int,
    out: Seq<u8>,
    check_crc: bool,
    check_stream_identifier: bool,
)
    requires
        0 <= b < e <= data.len(),
        is_complete_chunk(data.subrange(b, e)),
        decode_frames(data, check_crc, check_stream_identifier) == prepend(
            out,
            decode_frames(data.skip(b), check_crc, check_stream_identifier),
        ),
    ensures
        ({
            let p = data.subrange(b, e);
            match chunk_content(p[0], p.skip(4), check_crc, check_stream_identifier) {
                Err(x) => decode_frames(data, check_crc, check_stream_identifier) == Err::<
                    Seq<u8>,
                    FrameError,
                >(x),
                Ok(c) => decode_frames(data, check_crc, check_stream_identifier) == prepend(
                    out + c,
                    decode_frames(data.skip(e), check_crc, check_stream_identifier),
                ),
            }
        }),
{
    let s = data.skip(b);
    let p = data.subrange(b, e);
    assert(s.take(e - b) =~= p);
    lemma_decode_first_chunk(s, e - b, check_crc, check_stream_identifier);
    assert(s.skip(e - b) =~= data.skip(e));
    let rest = decode_frames(data.skip(e), check_crc, check_stream_identifier);
    match chunk_content(p[0], p.skip(4), check_crc, check_stream_identifier) {
        Err(x) => {},
        Ok(c) => {
            if rest is Ok {
                assert(out + (c + rest->Ok_0) =~= (out + c) + rest->Ok_0);
            }
        },
    }
}

/// Decodes a whole framed stream held in memory.
pub fn decompress(data: &[u8], check_crc: bool, check_stream_identifier: bool) -> (r: Result<
    Vec<u8>,
    FrameError,
>)
    ensures
        result_view(r) == decode_frames(data@, check_crc, check_stream_identifier),
{
    let dec = Decompressor::new();
    let dec = dec.check_crc(check_crc);
    let mut dec = dec.check_stream_identifier(check_stream_identifier);
    let mut out: Vec<u8> = Vec::new();
    let mut i: usize = 0;
    assert(out@ + decode_frames(data@, check_crc, check_stream_identifier)->Ok_0 =~= decode_frames(data@, check_crc, check_stream_identifier)->Ok_0);
    assert(data@.skip(0) =~= data@);
    while i < data.len()
        invariant
            dec.wf(),
            dec.crc_checked() == check_crc,
            dec.identifier_checked() == check_stream_identifier,
            dec.state() == DecoderState::Open,
            dec.available().len() == 0,
            i <= data@.len(),
            dec.pending().len() <= i,
            dec.pending() == data@.subrange(i - dec.pending().len(), i as int),
            decode_frames(data@, check_crc, check_stream_identifier) == prepend(
                out@,
                decode_frames(data@.skip(i - dec.pending().len()), check_crc, check_stream_identifier),
            ),
        decreases data@.len() - i,
    {
        let w = dec.wanted();
        let n = if w < data.len() - i {
            w
        } else {
            data.len() - i
        };
        let piece = copy_range(data, i, i + n);
        let ghost b = i - dec.pending().len();
        let ghost p = dec.pending() + piece@;
        let ghost out0 = out@;
        proof {
            assert(p =~= data@.subrange(b, i + n));
        }
        let res = dec.supply(piece.as_slice());
        proof {
            if is_complete_chunk(p) {
                lemma_chunk_step(data@, b, i + n, out0, check_crc, check_stream_identifier);
            }
        }
        match res {
            Err(e) => {
                return Err(e);
            },
            Ok(()) => {},
        }
        i = i + n;
        let ghost avail = dec.available();
        let all = dec.available_len();
        let got = dec.read(all);
        assert(got@ =~= avail);
        append_range(&mut out, got.as_slice(), 0, got.len());
        proof {
            assert(got@.subrange(0, got@.len() as int) =~= got@);
            if is_complete_chunk(p) {
                assert(data@.subrange(i as int, i as int) =~= dec.pending());
            } else {
                assert(out@ =~= out0);
            }
        }
    }
    proof {
        if dec.pending().len() == 0 {
            assert(data@.skip(i as int) =~= Seq::<u8>::empty());
            assert(out@ + Seq::<u8>::empty() =~= out@);
        } else {
            assert(data@.skip(i - dec.pending().len()) =~= dec.pending());
            lemma_decode_cut_chunk(dec.pending(), check_crc, check_stream_identifier);
        }
    }
    match dec.end_of_input() {
        Err(e) => Err(e),
        Ok(()) => Ok(out),
    }
}

} // verus!
