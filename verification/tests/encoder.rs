use std::io::Read;

use lz4_frame::BlockMode;
use lz4_frame::BlockSize;
use lz4_frame::ContentChecksum;
use lz4_frame::EncoderBuilder;
use lz4_frame::Error;
use lz4_frame::BoundedSink;
use lz4_frame::VecSink;

fn check_send<S: Send>(_: &S) {}

/// Decodes a complete frame with the reference frame decoder.
fn decode(bytes: &[u8]) -> Vec<u8> {
    let mut out = Vec::new();
    let mut dec = lz4_flex::frame::FrameDecoder::new(bytes);
    dec.read_to_end(&mut out).unwrap();
    out
}

/// The 1 MiB pseudo-random buffer used by the large-input tests.
fn lcg_buffer() -> Vec<u8> {
    let mut buffer = Vec::new();
    let mut rnd: u32 = 42;
    for _ in 0..1024 * 1024 {
        buffer.push((rnd & 0xFF) as u8);
        rnd = ((1664525 as u64) * (rnd as u64) + (1013904223 as u64)) as u32;
    }
    buffer
}

#[test]
fn test_encoder_smoke() {
    let mut encoder = EncoderBuilder::new().level(1).build(VecSink::new()).unwrap();
    encoder.write(b"Some ").unwrap();
    encoder.write(b"data").unwrap();
    let (_, result) = encoder.finish();
    result.unwrap();
}

#[test]
fn test_encoder_random() {
    let mut encoder = EncoderBuilder::new().level(1).build(VecSink::new()).unwrap();
    let mut buffer = Vec::new();
    let mut rnd: u32 = 42;
    for _ in 0..1024 * 1024 {
        buffer.push((rnd & 0xFF) as u8);
        rnd = ((1664525 as u64) * (rnd as u64) + (1013904223 as u64)) as u32;
    }
    encoder.write(&buffer).unwrap();
    let (_, result) = encoder.finish();
    result.unwrap();
}

#[test]
fn test_encoder_send() {
    let enc = EncoderBuilder::new().build(VecSink::new());
    check_send(&enc);
}

#[test]
fn test_round_trip_smoke() {
    let mut encoder = EncoderBuilder::new().level(1).build(VecSink::new()).unwrap();
    encoder.write(b"Some ").unwrap();
    encoder.write(b"data").unwrap();
    let (sink, result) = encoder.finish();
    result.unwrap();
    let bytes = sink.into_vec();
    assert!(!bytes.is_empty());
    assert_eq!(decode(&bytes), b"Some data");
}

#[test]
fn test_round_trip_random() {
    let buffer = lcg_buffer();
    let mut encoder = EncoderBuilder::new().build(VecSink::new()).unwrap();
    encoder.write(&buffer).unwrap();
    let (sink, result) = encoder.finish();
    result.unwrap();
    assert_eq!(decode(&sink.into_vec()), buffer);
}

#[test]
fn test_empty_frame() {
    let encoder = EncoderBuilder::new().build(VecSink::new()).unwrap();
    let (sink, result) = encoder.finish();
    result.unwrap();
    let bytes = sink.into_vec();
    // header (7) + end mark (4) + content checksum (4)
    assert_eq!(bytes.len(), 15);
    assert_eq!(decode(&bytes), b"");
}

#[test]
fn test_header_written_at_build() {
    let encoder = EncoderBuilder::new().build(VecSink::new()).unwrap();
    assert_eq!(encoder.writer().len(), 7);
    let expected = [0x04, 0x22, 0x4d, 0x18];
    let (sink, result) = encoder.finish();
    result.unwrap();
    assert_eq!(&sink.into_vec()[..4], &expected);
}

#[test]
fn test_chunking_invariance() {
    let buffer = lcg_buffer();
    let mut one = EncoderBuilder::new().build(VecSink::new()).unwrap();
    one.write(&buffer).unwrap();
    let (sink_one, r1) = one.finish();
    r1.unwrap();

    let mut many = EncoderBuilder::new().build(VecSink::new()).unwrap();
    for chunk in buffer.chunks(9973) {
        many.write(chunk).unwrap();
    }
    let (sink_many, r2) = many.finish();
    r2.unwrap();

    assert_eq!(decode(&sink_one.into_vec()), buffer);
    assert_eq!(decode(&sink_many.into_vec()), buffer);
}

#[test]
fn test_empty_write() {
    let mut encoder = EncoderBuilder::new().build(VecSink::new()).unwrap();
    assert_eq!(encoder.write(b"").unwrap(), 0);
    let (sink, result) = encoder.finish();
    result.unwrap();
    assert_eq!(decode(&sink.into_vec()), b"");
}

#[test]
fn test_flush_idempotent() {
    let mut encoder = EncoderBuilder::new().build(VecSink::new()).unwrap();
    encoder.write(b"buffered tail").unwrap();
    encoder.flush().unwrap();
    let after_first = encoder.writer().len();
    assert!(after_first > 7);
    encoder.flush().unwrap();
    assert_eq!(encoder.writer().len(), after_first);
    let (sink, result) = encoder.finish();
    result.unwrap();
    assert_eq!(decode(&sink.into_vec()), b"buffered tail");
}

#[test]
fn test_auto_flush_mode() {
    let mut encoder = EncoderBuilder::new()
        .auto_flush(true)
        .build(VecSink::new())
        .unwrap();
    let before = encoder.writer().len();
    encoder.write(b"immediately ").unwrap();
    assert!(encoder.writer().len() > before);
    encoder.write(b"emitted").unwrap();
    let (sink, result) = encoder.finish();
    result.unwrap();
    assert_eq!(decode(&sink.into_vec()), b"immediately emitted");
}

#[test]
fn test_modes_and_levels() {
    let mut encoder = EncoderBuilder::new()
        .block_size(BlockSize::Max256KB)
        .block_mode(BlockMode::Independent)
        .checksum(ContentChecksum::NoChecksum)
        .level(99)
        .build(VecSink::new())
        .unwrap();
    let buffer = lcg_buffer();
    encoder.write(&buffer).unwrap();
    let (sink, result) = encoder.finish();
    result.unwrap();
    assert_eq!(decode(&sink.into_vec()), buffer);
}

#[test]
fn test_block_size_bound() {
    // Feed far more than one block in a single call: every emitted block,
    // compressed or stored, must stay within the 64 KiB class.
    let buffer = lcg_buffer();
    let mut encoder = EncoderBuilder::new()
        .block_size(BlockSize::Max64KB)
        .build(VecSink::new())
        .unwrap();
    encoder.write(&buffer).unwrap();
    let (sink, result) = encoder.finish();
    result.unwrap();
    let bytes = sink.into_vec();
    let mut pos = 7;
    let mut blocks = 0;
    loop {
        let word = u32::from_le_bytes([bytes[pos], bytes[pos + 1], bytes[pos + 2], bytes[pos + 3]]);
        pos += 4;
        if word == 0 {
            break;
        }
        let size = (word & 0x7fffffff) as usize;
        assert!(size <= 65536);
        pos += size;
        blocks += 1;
    }
    assert_eq!(blocks, 16);
    // end mark + content checksum close the frame
    assert_eq!(pos + 4, bytes.len());
}

#[test]
fn test_build_fails_on_full_sink() {
    // Too small for even the 7-byte header: construction is aborted.
    match EncoderBuilder::new().build(BoundedSink::new(3)) {
        Ok(_) => panic!("build accepted a sink that cannot hold the header"),
        Err(e) => assert_eq!(e, Error::Sink),
    }
}

#[test]
fn test_finish_returns_sink_on_error() {
    // Exactly the header fits; the footer must fail, the sink must come back.
    let encoder = EncoderBuilder::new().build(BoundedSink::new(7)).unwrap();
    let (sink, result) = encoder.finish();
    assert_eq!(result, Err(Error::Sink));
    assert_eq!(sink.len(), 7);
}

#[test]
fn test_write_error_propagates() {
    let mut encoder = EncoderBuilder::new()
        .auto_flush(true)
        .build(BoundedSink::new(7))
        .unwrap();
    assert_eq!(encoder.write(b"does not fit"), Err(Error::Sink));
}

#[test]
fn test_builder_defaults_and_setters() {
    let b = EncoderBuilder::new();
    assert_eq!(b.block_size, BlockSize::Default);
    assert_eq!(b.block_mode, BlockMode::Linked);
    assert_eq!(b.checksum, ContentChecksum::ChecksumEnabled);
    assert_eq!(b.level, 0);
    assert!(!b.auto_flush);

    let mut c = EncoderBuilder::new();
    c.block_size(BlockSize::Max1MB)
        .block_mode(BlockMode::Independent)
        .checksum(ContentChecksum::NoChecksum)
        .level(7)
        .auto_flush(true);
    assert_eq!(c.block_size, BlockSize::Max1MB);
    assert_eq!(c.block_mode, BlockMode::Independent);
    assert_eq!(c.checksum, ContentChecksum::NoChecksum);
    assert_eq!(c.level, 7);
    assert!(c.auto_flush);
}

#[test]
fn test_no_checksum_footer_is_bare() {
    let encoder = EncoderBuilder::new()
        .checksum(ContentChecksum::NoChecksum)
        .build(VecSink::new())
        .unwrap();
    let (sink, result) = encoder.finish();
    result.unwrap();
    let bytes = sink.into_vec();
    // header (7) + end mark (4), no checksum word
    assert_eq!(bytes.len(), 11);
    assert_eq!(decode(&bytes), b"");
}
