//! The byte layout of an LZ4 frame, as specification functions.
//!
//! A frame is `header ++ body ++ footer`.  The body is a sequence of blocks;
//! each block carries one payload of at most the configured block size,
//! stored compressed when the engine's output is smaller than the payload
//! and verbatim otherwise.  These functions pin the layout down exactly, up
//! to the two named outside results `lz4_block_of` and `xxh32_of`.

use vstd::prelude::*;

use crate::encoder::BlockMode;
use crate::encoder::BlockSize;
use crate::encoder::ContentChecksum;
use crate::encoder::EncoderBuilder;
use crate::engine::lz4_block_of;
use crate::engine::xxh32_of;

verus! {

/// Byte count of a block size class.
pub open spec fn block_bytes(bs: BlockSize) -> nat {
    match bs {
        BlockSize::Default => 65536,
        BlockSize::Max64KB => 65536,
        BlockSize::Max256KB => 262144,
        BlockSize::Max1MB => 1048576,
        BlockSize::Max4MB => 4194304,
    }
}

/// The frame descriptor's flag byte: the version bits, the block
/// independence bit and the content checksum bit.
pub open spec fn flg_byte(cfg: EncoderBuilder) -> u8 {
    ((if cfg.block_mode == BlockMode::Independent {
        0x60int
    } else {
        0x40int
    }) + (if cfg.checksum == ContentChecksum::ChecksumEnabled {
        0x04int
    } else {
        0x00int
    })) as u8
}

/// The frame descriptor's block-size byte.
pub open spec fn bd_byte(bs: BlockSize) -> u8 {
    match bs {
        BlockSize::Default => 0x40,
        BlockSize::Max64KB => 0x40,
        BlockSize::Max256KB => 0x50,
        BlockSize::Max1MB => 0x60,
        BlockSize::Max4MB => 0x70,
    }
}

/// A `u32` in little-endian byte order.
pub open spec fn le32(n: u32) -> Seq<u8> {
    seq![
        (n & 0xff) as u8,
        ((n >> 8) & 0xff) as u8,
        ((n >> 16) & 0xff) as u8,
        ((n >> 24) & 0xff) as u8,
    ]
}

/// The frame header: magic number, descriptor, and the descriptor's
/// checksum byte (the second byte of its XXH32).
pub open spec fn header_bytes(cfg: EncoderBuilder) -> Seq<u8> {
    let flg = flg_byte(cfg);
    let bd = bd_byte(cfg.block_size);
    let hc = ((xxh32_of(seq![flg, bd], 0) >> 8) & 0xff) as u8;
    seq![0x04u8, 0x22u8, 0x4du8, 0x18u8, flg, bd, hc]
}

/// One framed body block for `payload`: a little-endian length word, then
/// the block data.  The payload is stored compressed when that is strictly
/// smaller, and verbatim — with the length word's high bit set — otherwise.
pub open spec fn block_frame(payload: Seq<u8>) -> Seq<u8> {
    let c = lz4_block_of(payload);
    if c.len() < payload.len() {
        le32(c.len() as u32) + c
    } else {
        le32((payload.len() as u32) | 0x80000000) + payload
    }
}

/// The framed body for a sequence of block payloads, in order.
pub open spec fn body_bytes(parts: Seq<Seq<u8>>) -> Seq<u8>
    decreases parts.len(),
{
    if parts.len() == 0 {
        Seq::<u8>::empty()
    } else {
        body_bytes(parts.drop_last()) + block_frame(parts.last())
    }
}

/// The concatenation of a sequence of block payloads: the uncompressed
/// content the body stands for.
pub open spec fn concat_parts(parts: Seq<Seq<u8>>) -> Seq<u8>
    decreases parts.len(),
{
    if parts.len() == 0 {
        Seq::<u8>::empty()
    } else {
        concat_parts(parts.drop_last()) + parts.last()
    }
}

/// The frame footer: the end mark, then — when enabled — the XXH32 of the
/// whole uncompressed content.
pub open spec fn footer_bytes(cfg: EncoderBuilder, content: Seq<u8>) -> Seq<u8> {
    le32(0) + if cfg.checksum == ContentChecksum::ChecksumEnabled {
        le32(xxh32_of(content, 0))
    } else {
        Seq::<u8>::empty()
    }
}

/// `data` cut into consecutive pieces of `limit` bytes, the last piece
/// shorter when `limit` does not divide the length: the block partition an
/// auto-flushing encoder emits for one accepted chunk.
pub open spec fn chunked(data: Seq<u8>, limit: nat) -> Seq<Seq<u8>>
    decreases data.len(),
{
    if limit == 0 || data.len() == 0 {
        Seq::<Seq<u8>>::empty()
    } else if data.len() <= limit {
        seq![data]
    } else {
        seq![data.take(limit as int)] + chunked(data.skip(limit as int), limit)
    }
}

/// Every payload is non-empty and within the configured block size.
pub open spec fn valid_parts(cfg: EncoderBuilder, parts: Seq<Seq<u8>>) -> bool {
    forall|i: int|
        0 <= i < parts.len() ==> 1 <= (#[trigger] parts[i]).len() <= block_bytes(cfg.block_size)
}

/// `bytes` is a complete frame under `cfg` whose block payloads concatenate
/// to exactly `content`: what a decoder of the frame format recovers.
pub open spec fn is_frame_for(cfg: EncoderBuilder, content: Seq<u8>, bytes: Seq<u8>) -> bool {
    exists|parts: Seq<Seq<u8>>|
        #[trigger] valid_parts(cfg, parts) && concat_parts(parts) == content && bytes
            == header_bytes(cfg) + body_bytes(parts) + footer_bytes(cfg, content)
}

pub proof fn lemma_body_push(parts: Seq<Seq<u8>>, p: Seq<u8>)
    ensures
        body_bytes(parts.push(p)) == body_bytes(parts) + block_frame(p),
{
    assert(parts.push(p).drop_last() =~= parts);
    assert(parts.push(p).last() == p);
}

pub proof fn lemma_concat_push(parts: Seq<Seq<u8>>, p: Seq<u8>)
    ensures
        concat_parts(parts.push(p)) == concat_parts(parts) + p,
{
    assert(parts.push(p).drop_last() =~= parts);
    assert(parts.push(p).last() == p);
}

pub proof fn lemma_body_app(a: Seq<Seq<u8>>, b: Seq<Seq<u8>>)
    ensures
        body_bytes(a + b) == body_bytes(a) + body_bytes(b),
    decreases b.len(),
{
    if b.len() == 0 {
        assert(a + b =~= a);
        assert(body_bytes(a) + body_bytes(b) =~= body_bytes(a));
    } else {
        lemma_body_app(a, b.drop_last());
        assert((a + b).drop_last() =~= a + b.drop_last());
        assert((a + b).last() == b.last());
        assert(body_bytes(a) + (body_bytes(b.drop_last()) + block_frame(b.last())) =~= (
        body_bytes(a) + body_bytes(b.drop_last())) + block_frame(b.last()));
    }
}

pub proof fn lemma_block_frame_len(p: Seq<u8>)
    ensures
        4 <= block_frame(p).len() <= 4 + p.len(),
{
}

/// Law: every valid partition of a content yields a complete frame for
/// exactly that content.  Chunking may change the block boundaries of the
/// body, never the content the frame stands for.
pub proof fn lemma_frame_for_parts(cfg: EncoderBuilder, parts: Seq<Seq<u8>>)
    requires
        valid_parts(cfg, parts),
    ensures
        is_frame_for(
            cfg,
            concat_parts(parts),
            header_bytes(cfg) + body_bytes(parts) + footer_bytes(cfg, concat_parts(parts)),
        ),
{
}

} // verus!
