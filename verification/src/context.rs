//! The encoding session's engine state: one frame in progress.
//!
//! The context buffers input up to one block, feeds every accepted byte to
//! the running content hasher, and renders header, blocks and footer into a
//! caller-supplied scratch buffer.  Its ghost state records the block
//! payloads emitted so far, so the encoder can relate the sink's bytes to
//! the frame layout of `crate::frame`.

use vstd::prelude::*;
use xxhash_rust::xxh32::Xxh32;

use crate::encoder::BlockMode;
use crate::encoder::BlockSize;
use crate::encoder::ContentChecksum;
use crate::encoder::EncoderBuilder;
use crate::engine::lz4_compress;
use crate::engine::xxh32_digest;
use crate::engine::xxh32_fed;
use crate::engine::xxh32_new;
use crate::engine::xxh32_once;
use crate::engine::xxh32_seed;
use crate::engine::xxh32_update;
use crate::frame::bd_byte;
use crate::frame::block_bytes;
use crate::frame::block_frame;
use crate::frame::body_bytes;
use crate::frame::concat_parts;
use crate::frame::flg_byte;
use crate::frame::footer_bytes;
use crate::frame::header_bytes;
use crate::frame::le32;
use crate::frame::lemma_block_frame_len;
use crate::frame::lemma_body_push;
use crate::frame::lemma_concat_push;
use crate::frame::valid_parts;
use crate::sink::append_bytes;

verus! {

/// Appends the little-endian bytes of `n`.
pub(crate) fn push_le32(out: &mut Vec<u8>, n: u32)
    ensures
        final(out)@ == old(out)@ + le32(n),
{
    assert(n & 0xff < 256) by (bit_vector);
    assert((n >> 8) & 0xff < 256) by (bit_vector);
    assert((n >> 16) & 0xff < 256) by (bit_vector);
    assert((n >> 24) & 0xff < 256) by (bit_vector);
    out.push((n & 0xff) as u8);
    out.push(((n >> 8) & 0xff) as u8);
    out.push(((n >> 16) & 0xff) as u8);
    out.push(((n >> 24) & 0xff) as u8);
    proof {
        assert(out@ =~= old(out)@ + le32(n));
    }
}

/// Appends one framed body block carrying `payload`.
fn push_block(out: &mut Vec<u8>, payload: &[u8])
    requires
        1 <= payload@.len() <= 4194304,
    ensures
        final(out)@ == old(out)@ + block_frame(payload@),
{
    let c = lz4_compress(payload);
    if c.len() < payload.len() {
        push_le32(out, c.len() as u32);
        append_bytes(out, c.as_slice());
        proof {
            assert(out@ =~= old(out)@ + block_frame(payload@));
        }
    } else {
        push_le32(out, (payload.len() as u32) | 0x80000000);
        append_bytes(out, payload);
        proof {
            assert(out@ =~= old(out)@ + block_frame(payload@));
        }
    }
}

/// One encoding session's engine state.
pub(crate) struct EncoderContext {
    pub(crate) cfg: EncoderBuilder,
    pub(crate) pending: Vec<u8>,
    pub(crate) hasher: Xxh32,
    pub(crate) parts: Ghost<Seq<Seq<u8>>>,
}

impl EncoderContext {
    /// Every byte accepted so far: the emitted block payloads, then what is
    /// still buffered.
    pub(crate) open spec fn fed(&self) -> Seq<u8> {
        concat_parts(self.parts@) + self.pending@
    }

    pub(crate) open spec fn wf(&self) -> bool {
        &&& valid_parts(self.cfg, self.parts@)
        &&& self.pending@.len() < block_bytes(self.cfg.block_size)
        &&& (self.cfg.auto_flush ==> self.pending@.len() == 0)
        &&& xxh32_fed(self.hasher) == self.fed()
        &&& xxh32_seed(self.hasher) == 0
    }

    pub(crate) fn new(cfg: EncoderBuilder) -> (r: Self)
        ensures
            r.wf(),
            r.cfg == cfg,
            r.parts@ == Seq::<Seq<u8>>::empty(),
            r.fed() == Seq::<u8>::empty(),
    {
        let r = EncoderContext {
            cfg,
            pending: Vec::new(),
            hasher: xxh32_new(0),
            parts: Ghost(Seq::empty()),
        };
        proof {
            assert(r.fed() =~= Seq::<u8>::empty());
        }
        r
    }

    /// Renders the frame header into `out`.
    pub(crate) fn begin(&self, out: &mut Vec<u8>)
        ensures
            final(out)@ == header_bytes(self.cfg),
            final(out)@.len() == 7,
    {
        out.clear();
        let mut flg: u8 = 0x40;
        if self.cfg.block_mode == BlockMode::Independent {
            flg = flg + 0x20;
        }
        if self.cfg.checksum == ContentChecksum::ChecksumEnabled {
            flg = flg + 0x04;
        }
        let bd: u8 = match self.cfg.block_size {
            BlockSize::Default => 0x40,
            BlockSize::Max64KB => 0x40,
            BlockSize::Max256KB => 0x50,
            BlockSize::Max1MB => 0x60,
            BlockSize::Max4MB => 0x70,
        };
        assert(flg == flg_byte(self.cfg));
        assert(bd == bd_byte(self.cfg.block_size));
        let mut descriptor: Vec<u8> = Vec::new();
        descriptor.push(flg);
        descriptor.push(bd);
        proof {
            assert(descriptor@ =~= seq![flg_byte(self.cfg), bd_byte(self.cfg.block_size)]);
        }
        let h = xxh32_once(descriptor.as_slice(), 0);
        assert((h >> 8) & 0xff < 256) by (bit_vector);
        let hc = ((h >> 8) & 0xff) as u8;
        out.push(0x04);
        out.push(0x22);
        out.push(0x4d);
        out.push(0x18);
        out.push(flg);
        out.push(bd);
        out.push(hc);
        proof {
            assert(out@ =~= header_bytes(self.cfg));
        }
    }

    /// Accepts one chunk of at most a block: hashes it, buffers it, and —
    /// when a full block is ready, or at once under auto-flush — renders the
    /// framed block into `out`.  `out` holds exactly the bytes produced by
    /// this call.
    pub(crate) fn update(&mut self, out: &mut Vec<u8>, input: &[u8])
        requires
            old(self).wf(),
            1 <= input@.len() <= block_bytes(old(self).cfg.block_size),
        ensures
            final(self).wf(),
            final(self).cfg == old(self).cfg,
            final(self).fed() == old(self).fed() + input@,
            old(self).parts@.is_prefix_of(final(self).parts@),
            final(out)@ == body_bytes(final(self).parts@.skip(old(self).parts@.len() as int)),
            final(out)@.len() <= 4 + block_bytes(old(self).cfg.block_size),
            old(self).cfg.auto_flush ==> final(self).pending@.len() == 0,
            old(self).cfg.auto_flush ==> final(self).parts@ == old(self).parts@.push(input@),
            !old(self).cfg.auto_flush ==> forall|i: int|
                old(self).parts@.len() <= i < final(self).parts@.len() ==> (
                #[trigger] final(self).parts@[i]).len() == block_bytes(old(self).cfg.block_size),
    {
        out.clear();
        xxh32_update(&mut self.hasher, input);
        append_bytes(&mut self.pending, input);
        let ghost parts0 = self.parts@;
        if self.cfg.auto_flush {
            // Auto-flush keeps nothing buffered, so `pending` is exactly `input`.
            push_block(out, self.pending.as_slice());
            self.parts = Ghost(self.parts@.push(self.pending@));
            proof {
                lemma_concat_push(parts0, old(self).pending@ + input@);
                lemma_body_push(Seq::<Seq<u8>>::empty(), old(self).pending@ + input@);
                lemma_block_frame_len(old(self).pending@ + input@);
                assert(self.parts@.skip(parts0.len() as int) =~= Seq::<Seq<u8>>::empty().push(
                    old(self).pending@ + input@,
                ));
                assert(old(self).pending@ + input@ =~= input@);
                assert(self.parts@ =~= parts0.push(input@));
            }
            self.pending.clear();
            proof {
                assert(self.fed() =~= old(self).fed() + input@);
            }
        } else {
            let limit = self.cfg.block_size.get_size();
            if self.pending.len() >= limit {
                let tail = self.pending.split_off(limit);
                push_block(out, self.pending.as_slice());
                self.parts = Ghost(self.parts@.push(self.pending@));
                proof {
                    lemma_concat_push(parts0, self.pending@);
                    lemma_body_push(Seq::<Seq<u8>>::empty(), self.pending@);
                    lemma_block_frame_len(self.pending@);
                    assert(self.parts@.skip(parts0.len() as int) =~= Seq::<Seq<u8>>::empty().push(
                        self.pending@,
                    ));
                    assert(self.pending@ + tail@ =~= old(self).pending@ + input@);
                }
                let ghost emitted = self.pending@;
                self.pending = tail;
                proof {
                    assert(concat_parts(self.parts@) =~= concat_parts(parts0) + emitted);
                    assert(self.fed() =~= old(self).fed() + input@);
                }
            } else {
                proof {
                    assert(out@ =~= body_bytes(self.parts@.skip(parts0.len() as int)));
                    assert(self.fed() =~= old(self).fed() + input@);
                }
            }
        }
    }

    /// Drains the buffered partial block, if any, as one framed block into
    /// `out`.  `out` stays empty exactly when nothing was pending.
    pub(crate) fn flush(&mut self, out: &mut Vec<u8>)
        requires
            old(self).wf(),
        ensures
            final(self).wf(),
            final(self).cfg == old(self).cfg,
            final(self).fed() == old(self).fed(),
            final(self).pending@.len() == 0,
            old(self).parts@.is_prefix_of(final(self).parts@),
            final(self).parts@ == (if old(self).pending@.len() == 0 {
                old(self).parts@
            } else {
                old(self).parts@.push(old(self).pending@)
            }),
            final(out)@ == body_bytes(final(self).parts@.skip(old(self).parts@.len() as int)),
            final(out)@.len() == 0 <==> old(self).pending@.len() == 0,
            final(out)@.len() <= 4 + block_bytes(old(self).cfg.block_size),
    {
        out.clear();
        let ghost parts0 = self.parts@;
        if self.pending.len() > 0 {
            push_block(out, self.pending.as_slice());
            self.parts = Ghost(self.parts@.push(self.pending@));
            proof {
                lemma_concat_push(parts0, self.pending@);
                lemma_body_push(Seq::<Seq<u8>>::empty(), self.pending@);
                lemma_block_frame_len(self.pending@);
                assert(self.parts@.skip(parts0.len() as int) =~= Seq::<Seq<u8>>::empty().push(
                    self.pending@,
                ));
            }
            self.pending.clear();
            proof {
                assert(self.fed() =~= old(self).fed());
            }
        } else {
            proof {
                assert(self.parts@.skip(parts0.len() as int) =~= Seq::<Seq<u8>>::empty());
            }
        }
    }

    /// Ends the frame: drains the buffered partial block, then renders the
    /// footer.  `out` holds exactly the bytes produced by this call.
    pub(crate) fn end(&mut self, out: &mut Vec<u8>)
        requires
            old(self).wf(),
        ensures
            final(self).wf(),
            final(self).cfg == old(self).cfg,
            final(self).fed() == old(self).fed(),
            final(self).pending@.len() == 0,
            old(self).parts@.is_prefix_of(final(self).parts@),
            final(self).parts@ == (if old(self).pending@.len() == 0 {
                old(self).parts@
            } else {
                old(self).parts@.push(old(self).pending@)
            }),
            final(out)@ == body_bytes(final(self).parts@.skip(old(self).parts@.len() as int))
                + footer_bytes(old(self).cfg, old(self).fed()),
            final(out)@.len() <= 12 + block_bytes(old(self).cfg.block_size),
    {
        self.flush(out);
        let ghost body0 = out@;
        push_le32(out, 0);
        if self.cfg.checksum == ContentChecksum::ChecksumEnabled {
            let h = xxh32_digest(&self.hasher);
            push_le32(out, h);
            proof {
                assert(out@ =~= body0 + footer_bytes(self.cfg, self.fed()));
            }
        } else {
            proof {
                assert(out@ =~= body0 + footer_bytes(self.cfg, self.fed()));
            }
        }
    }
}

} // verus!
