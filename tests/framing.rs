use snzip::framing::{Compressor, Decompressor};
use snzip::snappy::uncompress;
use snzip::{compress, decompress, masked_checksum, DecoderState, FrameError};

const STREAM_ID: [u8; 10] = [0xff, 0x06, 0x00, 0x00, 0x73, 0x4e, 0x61, 0x50, 0x70, 0x59];

fn chunk(tag: u8, payload: &[u8]) -> Vec<u8> {
    let n = payload.len();
    let mut v = vec![tag, (n & 0xff) as u8, ((n >> 8) & 0xff) as u8, ((n >> 16) & 0xff) as u8];
    v.extend_from_slice(payload);
    v
}

fn raw_chunk(data: &[u8]) -> Vec<u8> {
    let mut p = masked_checksum(data).to_le_bytes().to_vec();
    p.extend_from_slice(data);
    chunk(0x01, &p)
}

/// Feeds `stream` to `dec` in pieces of at most `piece` bytes and reads the
/// decoded bytes in pieces of at most `out_piece` bytes.
fn decode_streaming(
    mut dec: Decompressor,
    stream: &[u8],
    piece: usize,
    out_piece: usize,
) -> Result<Vec<u8>, FrameError> {
    let mut out = Vec::new();
    let mut i = 0;
    loop {
        let got = dec.read(out_piece);
        if !got.is_empty() {
            out.extend_from_slice(&got);
            continue;
        }
        match dec.status() {
            DecoderState::Ended => return Ok(out),
            DecoderState::Failed(e) => return Err(e),
            DecoderState::Open => {}
        }
        let want = dec.wanted();
        if i == stream.len() {
            dec.end_of_input()?;
            continue;
        }
        let n = want.min(piece).min(stream.len() - i);
        dec.supply(&stream[i..i + n])?;
        i += n;
    }
}

fn encode_streaming(data: &[u8], piece: usize) -> Vec<u8> {
    let mut comp = Compressor::new();
    let mut i = 0;
    while i < data.len() {
        let end = (i + piece).min(data.len());
        i += comp.write(&data[i..end]);
    }
    comp.close();
    comp.take_output()
}

fn sample(n: usize) -> Vec<u8> {
    let mut x: u32 = 12345;
    (0..n)
        .map(|i| {
            x = x.wrapping_mul(1103515245).wrapping_add(12345);
            if i % 7 < 3 { b'z' } else { (x >> 16) as u8 }
        })
        .collect()
}

#[test]
fn it_works() {
    let text = b"machin machin machin, the framed stream decodes to what was encoded".to_vec();
    let stream = encode_streaming(&text, 5);
    let dec = Decompressor::new();
    let out = decode_streaming(dec, &stream, 3, 4).unwrap();
    println!("{}", String::from_utf8_lossy(&out));
    assert_eq!(out, text);
}

#[test]
fn round_trip_various_lengths() {
    for &n in &[0usize, 1, 2, 100, 65535, 65536, 65537, 131072, 200_001] {
        let data = sample(n);
        let stream = compress(&data);
        assert_eq!(decompress(&stream, true, true), Ok(data.clone()), "length {}", n);
        assert_eq!(decompress(&stream, false, false), Ok(data.clone()));
        assert_eq!(decode_streaming(Decompressor::new(), &stream, 1000, 777), Ok(data.clone()));
        assert_eq!(encode_streaming(&data, 1000), stream);
    }
}

#[test]
fn round_trip_byte_by_byte() {
    let data = sample(3000);
    let stream = encode_streaming(&data, 1);
    let out = decode_streaming(Decompressor::new(), &stream, 1, 1).unwrap();
    assert_eq!(out, data);
}

#[test]
fn compression_shrinks_repetitive_data() {
    let data = vec![b'q'; 10_000];
    let stream = compress(&data);
    assert!(stream.len() < 1000);
    assert_eq!(&stream[..10], &STREAM_ID);
    assert_eq!(stream[10], 0x00);
    let stored = u32::from_le_bytes([stream[14], stream[15], stream[16], stream[17]]);
    assert_eq!(stored, masked_checksum(&data));
}

#[test]
fn empty_flush_emits_nothing() {
    let mut comp = Compressor::new();
    comp.flush();
    assert!(comp.take_output().is_empty());
    assert_eq!(comp.write(b"abc"), 3);
    comp.flush();
    let first = comp.take_output();
    assert!(!first.is_empty());
    comp.flush();
    comp.flush();
    assert!(comp.take_output().is_empty());
    let mut stream = first;
    comp.close();
    stream.extend(comp.take_output());
    assert_eq!(decompress(&stream, true, true), Ok(b"abc".to_vec()));
}

#[test]
fn close_is_idempotent() {
    let mut comp = Compressor::new();
    assert_eq!(comp.write(b"hello"), 5);
    comp.close();
    let once = comp.take_output();
    comp.close();
    assert!(comp.take_output().is_empty());
    assert_eq!(decompress(&once, true, true), Ok(b"hello".to_vec()));
}

#[test]
fn flush_then_more_data() {
    let mut comp = Compressor::new();
    comp.write(b"one ");
    comp.flush();
    comp.write(b"two");
    comp.close();
    let stream = comp.take_output();
    // one identifier, then two data chunks
    assert_eq!(&stream[..10], &STREAM_ID);
    assert_eq!(stream.iter().filter(|&&b| b == 0xff).count(), 1);
    assert_eq!(decompress(&stream, true, true), Ok(b"one two".to_vec()));
}

#[test]
fn block_boundary_scenario() {
    let data = vec![b'a'; 70_000];
    let mut comp = Compressor::new();
    let mut i = 0;
    while i < data.len() {
        i += comp.write(&data[i..]);
    }
    comp.close();
    let stream = comp.take_output();
    assert_eq!(&stream[..10], &STREAM_ID);
    let mut pos = 10;
    let mut sizes = Vec::new();
    while pos < stream.len() {
        assert_eq!(stream[pos], 0x00);
        let len = stream[pos + 1] as usize
            | (stream[pos + 2] as usize) << 8
            | (stream[pos + 3] as usize) << 16;
        let mut block = Vec::new();
        uncompress(&stream[pos + 8..pos + 4 + len], &mut block).unwrap();
        sizes.push(block.len());
        pos += 4 + len;
    }
    assert_eq!(sizes, vec![65_536, 4_464]);
    assert_eq!(decompress(&stream, true, true), Ok(data));
}

#[test]
fn write_accepts_at_most_one_block() {
    let data = vec![b'a'; 70_000];
    let mut comp = Compressor::new();
    assert_eq!(comp.write(&data), 65_536);
    assert!(!comp.take_output().is_empty());
    assert_eq!(comp.write(&data[65_536..]), 4_464);
    assert!(comp.take_output().is_empty());
}

#[test]
fn empty_stream_scenario() {
    let mut comp = Compressor::new();
    comp.close();
    let stream = comp.take_output();
    assert_eq!(stream, STREAM_ID.to_vec());
    assert_eq!(compress(&[]), STREAM_ID.to_vec());
    assert_eq!(decompress(&stream, true, true), Ok(vec![]));
    assert_eq!(decode_streaming(Decompressor::new(), &stream, 2, 8), Ok(vec![]));
}

#[test]
fn empty_input_is_an_empty_stream() {
    assert_eq!(decompress(&[], true, true), Ok(vec![]));
    assert_eq!(decode_streaming(Decompressor::new(), &[], 4, 4), Ok(vec![]));
}

#[test]
fn masked_checksum_known_value() {
    // CRC32C("123456789") is 0xe3069283
    assert_eq!(masked_checksum(b"123456789"), 0xc78a_b0e5);
    // CRC32C of nothing is 0: the mask alone
    assert_eq!(masked_checksum(b""), 0xa282_ead8);
}

#[test]
fn raw_chunk_decodes_verbatim() {
    let mut stream = STREAM_ID.to_vec();
    stream.extend(raw_chunk(b"plain bytes"));
    assert_eq!(decompress(&stream, true, true), Ok(b"plain bytes".to_vec()));
}

#[test]
fn flipped_bit_in_raw_data_is_caught() {
    let mut stream = STREAM_ID.to_vec();
    stream.extend(raw_chunk(b"plain bytes"));
    let last = stream.len() - 1;
    stream[last] ^= 0x10;
    assert_eq!(decompress(&stream, true, true), Err(FrameError::ChecksumMismatch));
    assert_eq!(decompress(&stream, false, true), Ok(b"plain bytec".to_vec()));
    assert_eq!(
        decode_streaming(Decompressor::new(), &stream, 5, 5),
        Err(FrameError::ChecksumMismatch)
    );
    assert!(decode_streaming(Decompressor::new().check_crc(false), &stream, 5, 5).is_ok());
}

#[test]
fn flipped_bit_in_stored_checksum_is_caught() {
    let stream = compress(b"some text to protect");
    for bit in 0..32 {
        let mut s = stream.clone();
        s[14 + bit / 8] ^= 1 << (bit % 8);
        assert_eq!(decompress(&s, true, true), Err(FrameError::ChecksumMismatch));
        assert_eq!(decompress(&s, false, true), Ok(b"some text to protect".to_vec()));
    }
}

#[test]
fn flipped_bit_in_compressed_literal_is_caught() {
    let stream = compress(b"literal");
    let mut s = stream.clone();
    let last = s.len() - 1;
    s[last] ^= 0x01;
    assert_eq!(decompress(&s, true, true), Err(FrameError::ChecksumMismatch));
    assert_eq!(decompress(&s, false, true), Ok(b"literam".to_vec()));
}

#[test]
fn truncated_stream_is_refused() {
    let stream = compress(&sample(5000));
    for cut in 1..stream.len() {
        if cut == 10 {
            // the identifier chunk alone is a whole stream
            assert_eq!(decompress(&stream[..cut], true, true), Ok(vec![]));
            continue;
        }
        assert_eq!(
            decompress(&stream[..cut], true, true),
            Err(FrameError::TruncatedChunk),
            "cut at {}",
            cut
        );
    }
    assert_eq!(
        decode_streaming(Decompressor::new(), &stream[..stream.len() - 1], 7, 7),
        Err(FrameError::TruncatedChunk)
    );
}

#[test]
fn data_chunk_without_room_for_checksum() {
    let mut stream = STREAM_ID.to_vec();
    stream.extend(chunk(0x01, &[1, 2, 3]));
    assert_eq!(decompress(&stream, false, false), Err(FrameError::TruncatedChunk));
}

#[test]
fn unskippable_reserved_tags_are_fatal() {
    for tag in [0x02u8, 0x10, 0x7f] {
        let mut stream = STREAM_ID.to_vec();
        stream.extend(chunk(tag, b"whatever"));
        stream.extend(raw_chunk(b"after"));
        assert_eq!(decompress(&stream, true, true), Err(FrameError::UnsupportedChunk));
        assert_eq!(decompress(&stream, false, false), Err(FrameError::UnsupportedChunk));
        let dec = Decompressor::new().fast(true);
        assert_eq!(decode_streaming(dec, &stream, 64, 64), Err(FrameError::UnsupportedChunk));
    }
}

#[test]
fn skippable_chunks_contribute_nothing() {
    for tag in [0x80u8, 0xa0, 0xfd, 0xfe] {
        let mut stream = STREAM_ID.to_vec();
        stream.extend(raw_chunk(b"before "));
        stream.extend(chunk(tag, b"\x00\x01garbage\xff"));
        stream.extend(chunk(tag, b""));
        stream.extend(raw_chunk(b"after"));
        assert_eq!(decompress(&stream, true, true), Ok(b"before after".to_vec()));
        assert_eq!(decompress(&stream, false, false), Ok(b"before after".to_vec()));
        assert_eq!(decode_streaming(Decompressor::new(), &stream, 3, 3), Ok(b"before after".to_vec()));
    }
}

#[test]
fn invalid_stream_identifier() {
    let mut stream = chunk(0xff, b"sNaPpX");
    stream.extend(raw_chunk(b"x"));
    assert_eq!(decompress(&stream, true, true), Err(FrameError::InvalidStreamIdentifier));
    assert_eq!(decompress(&stream, true, false), Ok(b"x".to_vec()));
    let dec = Decompressor::new().check_stream_identifier(false);
    assert_eq!(decode_streaming(dec, &stream, 4, 4), Ok(b"x".to_vec()));
    let dec = Decompressor::new().fast(true);
    assert_eq!(decode_streaming(dec, &stream, 4, 4), Ok(b"x".to_vec()));
}

#[test]
fn corrupt_compressed_block() {
    let body = [0xffu8, 0xff, 0xff, 0xff, 0xff, 0x0f, 0x00];
    let mut payload = 0u32.to_le_bytes().to_vec();
    payload.extend_from_slice(&body);
    let mut stream = STREAM_ID.to_vec();
    stream.extend(chunk(0x00, &payload));
    assert_eq!(decompress(&stream, true, true), Err(FrameError::CorruptBlock));
    let mut dst = vec![9u8];
    assert_eq!(uncompress(&body, &mut dst), Err(FrameError::CorruptBlock));
    assert_eq!(dst, vec![9u8]);
}

#[test]
fn uncompress_decodes_a_block() {
    let stream = compress(b"abcabcabcabcabcabc");
    let len = stream[11] as usize | (stream[12] as usize) << 8 | (stream[13] as usize) << 16;
    let body = &stream[18..14 + len];
    assert_ne!(body, b"abcabcabcabcabcabc");
    let mut dst = Vec::new();
    assert_eq!(uncompress(body, &mut dst), Ok(()));
    assert_eq!(dst, b"abcabcabcabcabcabc".to_vec());
}

#[test]
fn failed_decoder_stays_failed() {
    let mut stream = STREAM_ID.to_vec();
    stream.extend(chunk(0x05, b""));
    let mut dec = Decompressor::new();
    assert_eq!(dec.supply(&stream[..4]), Ok(()));
    assert_eq!(dec.wanted(), 6);
    assert_eq!(dec.supply(&stream[4..10]), Ok(()));
    assert_eq!(dec.supply(&stream[10..14]), Err(FrameError::UnsupportedChunk));
    assert_eq!(dec.status(), DecoderState::Failed(FrameError::UnsupportedChunk));
    assert_eq!(dec.wanted(), 0);
    assert_eq!(dec.end_of_input(), Err(FrameError::UnsupportedChunk));
    assert!(dec.read(100).is_empty());
}

#[test]
fn decoder_delivers_partial_reads() {
    let stream = compress(b"0123456789");
    let mut dec = Decompressor::new();
    let mut i = 0;
    while dec.available_len() == 0 {
        let n = dec.wanted();
        dec.supply(&stream[i..i + n]).unwrap();
        i += n;
    }
    assert_eq!(dec.read(4), b"0123".to_vec());
    assert_eq!(dec.read(4), b"4567".to_vec());
    assert_eq!(dec.read(4), b"89".to_vec());
    assert!(dec.read(4).is_empty());
    assert_eq!(i, stream.len());
    assert_eq!(dec.end_of_input(), Ok(()));
    assert_eq!(dec.status(), DecoderState::Ended);
}
