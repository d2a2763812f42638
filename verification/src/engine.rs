//! Trusted boundary to the outside compression and checksum primitives.
//!
//! Everything the encoder takes on trust about outside code is collected
//! here: a name for the LZ4 block compressor's output, and a model of the
//! streaming XXH32 hasher.  Each wrapper's contract states no more than the
//! outside source shows.

use vstd::prelude::*;
use xxhash_rust::xxh32::Xxh32;

verus! {

/// The compressed image of `input` under the LZ4 block compressor of this
/// build: the compressor is pure, but its output may differ between
/// targets, and nothing here compares results across builds.  The byte
/// layout is the engine's own; nothing here depends on it beyond the
/// length comparison made when a block is framed.
pub uninterp spec fn lz4_block_of(input: Seq<u8>) -> Seq<u8>;

/// The XXH32 checksum of `data` under `seed`.
pub uninterp spec fn xxh32_of(data: Seq<u8>, seed: u32) -> u32;

/// The bytes a streaming XXH32 hasher has absorbed so far.
pub uninterp spec fn xxh32_fed(h: Xxh32) -> Seq<u8>;

/// The seed a streaming XXH32 hasher was created with.
pub uninterp spec fn xxh32_seed(h: Xxh32) -> u32;

#[verifier::external_type_specification]
#[verifier::external_body]
pub struct ExXxh32(Xxh32);

/// Relies on lz4_flex::block::compress: a pure function of the input bytes
/// alone within any one build of the engine, returning the compressed
/// block.
#[verifier::external_body]
pub(crate) fn lz4_compress(input: &[u8]) -> (r: Vec<u8>)
    requires
        input@.len() < 0x80000000,
    ensures
        r@ == lz4_block_of(input@),
{
    lz4_flex::block::compress(input)
}

/// Relies on xxhash_rust::xxh32::xxh32: the one-shot XXH32 of `data`
/// under `seed`, a deterministic function of its arguments alone.
#[verifier::external_body]
pub(crate) fn xxh32_once(data: &[u8], seed: u32) -> (r: u32)
    ensures
        r == xxh32_of(data@, seed),
{
    xxhash_rust::xxh32::xxh32(data, seed)
}

/// Relies on xxhash_rust::xxh32::Xxh32::new: a fresh hasher that has
/// absorbed nothing.
#[verifier::external_body]
pub(crate) fn xxh32_new(seed: u32) -> (r: Xxh32)
    ensures
        xxh32_fed(r) == Seq::<u8>::empty(),
        xxh32_seed(r) == seed,
{
    Xxh32::new(seed)
}

/// Relies on xxhash_rust::xxh32::Xxh32::update: absorbs `data` after what
/// was absorbed before; the seed is untouched.
#[verifier::external_body]
pub(crate) fn xxh32_update(h: &mut Xxh32, data: &[u8])
    ensures
        xxh32_fed(*final(h)) == xxh32_fed(*old(h)) + data@,
        xxh32_seed(*final(h)) == xxh32_seed(*old(h)),
{
    h.update(data)
}

/// Relies on xxhash_rust::xxh32::Xxh32::digest: absorbing bytes in chunks
/// and digesting yields the same value as the one-shot hash of their
/// concatenation, as the crate's streaming implementation shows.
#[verifier::external_body]
pub(crate) fn xxh32_digest(h: &Xxh32) -> (r: u32)
    ensures
        r == xxh32_of(xxh32_fed(*h), xxh32_seed(*h)),
{
    h.digest()
}

} // verus!
