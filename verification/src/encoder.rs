//! Configuration builder and the streaming frame encoder.

use vstd::prelude::*;
use vstd::slice::slice_subrange;

use crate::context::EncoderContext;
use crate::frame::block_bytes;
use crate::frame::concat_parts;
use crate::frame::block_frame;
use crate::frame::chunked;
use crate::frame::body_bytes;
use crate::frame::footer_bytes;
use crate::frame::header_bytes;
use crate::frame::is_frame_for;
use crate::frame::lemma_body_app;
use crate::frame::lemma_body_push;
use crate::frame::lemma_concat_push;
use crate::frame::lemma_frame_for_parts;
use crate::frame::valid_parts;
use crate::sink::ByteSink;
use crate::sink::Error;

verus! {

/// Block size class of a frame: the largest number of uncompressed bytes
/// that one body block may carry.
#[derive(Clone, Copy, Debug, PartialEq, Eq, Structural)]
pub enum BlockSize {
    /// Let the encoder pick; it resolves to the 64 KiB class.
    Default,
    Max64KB,
    Max256KB,
    Max1MB,
    Max4MB,
}

/// Whether a body block may reference decompressed data of earlier blocks.
/// The choice is recorded in the frame header; this encoder compresses
/// every block independently either way, which linked-mode decoders accept,
/// so `Linked` changes only the header flag, never correctness.
#[derive(Clone, Copy, Debug, PartialEq, Eq, Structural)]
pub enum BlockMode {
    Linked,
    Independent,
}

/// Whether the frame footer carries a checksum of the uncompressed content.
#[derive(Clone, Copy, Debug, PartialEq, Eq, Structural)]
pub enum ContentChecksum {
    ChecksumEnabled,
    NoChecksum,
}

impl BlockSize {
    /// The byte count of this block size class.
    pub fn get_size(&self) -> (n: usize)
        ensures
            n == crate::frame::block_bytes(*self),
    {
        match self {
            BlockSize::Default => 65536,
            BlockSize::Max64KB => 65536,
            BlockSize::Max256KB => 262144,
            BlockSize::Max1MB => 1048576,
            BlockSize::Max4MB => 4194304,
        }
    }
}

/// Immutable encoding parameters, assembled fluently and then consumed by
/// [`EncoderBuilder::build`].
#[derive(Clone, Copy, Debug, PartialEq, Eq, Structural)]
pub struct EncoderBuilder {
    pub block_size: BlockSize,
    pub block_mode: BlockMode,
    pub checksum: ContentChecksum,
    /// Compression effort, 0 meaning the default mode.  Clamping is the
    /// engine's business; this engine applies a single effort level, so
    /// every value compresses alike and the field is only recorded.
    pub level: u32,
    /// When set, every accepted chunk is emitted immediately instead of
    /// being buffered up to a full block.
    pub auto_flush: bool,
}

impl EncoderBuilder {
    pub fn new() -> (r: Self)
        ensures
            r == (EncoderBuilder {
                block_size: BlockSize::Default,
                block_mode: BlockMode::Linked,
                checksum: ContentChecksum::ChecksumEnabled,
                level: 0,
                auto_flush: false,
            }),
    {
        EncoderBuilder {
            block_size: BlockSize::Default,
            block_mode: BlockMode::Linked,
            checksum: ContentChecksum::ChecksumEnabled,
            level: 0,
            auto_flush: false,
        }
    }

    pub fn block_size(&mut self, block_size: BlockSize) -> (r: &mut Self)
        ensures
            *r == (EncoderBuilder { block_size, ..*old(self) }),
            *final(self) == *final(r),
    {
        self.block_size = block_size;
        self
    }

    pub fn block_mode(&mut self, block_mode: BlockMode) -> (r: &mut Self)
        ensures
            *r == (EncoderBuilder { block_mode, ..*old(self) }),
            *final(self) == *final(r),
    {
        self.block_mode = block_mode;
        self
    }

    pub fn checksum(&mut self, checksum: ContentChecksum) -> (r: &mut Self)
        ensures
            *r == (EncoderBuilder { checksum, ..*old(self) }),
            *final(self) == *final(r),
    {
        self.checksum = checksum;
        self
    }

    pub fn level(&mut self, level: u32) -> (r: &mut Self)
        ensures
            *r == (EncoderBuilder { level, ..*old(self) }),
            *final(self) == *final(r),
    {
        self.level = level;
        self
    }

    pub fn auto_flush(&mut self, auto_flush: bool) -> (r: &mut Self)
        ensures
            *r == (EncoderBuilder { auto_flush, ..*old(self) }),
            *final(self) == *final(r),
    {
        self.auto_flush = auto_flush;
        self
    }

    /// Consumes a sink and opens an encoding session on it: the engine state
    /// is created and the frame header is written out at once, so a returned
    /// encoder is always past the header.  A sink failure aborts the
    /// construction and no encoder is returned; an infallible sink makes
    /// construction succeed.
    pub fn build<W: ByteSink>(&self, w: W) -> (r: Result<Encoder<W>, Error>)
        ensures
            w.infallible() ==> r is Ok,
            r matches Ok(enc) ==> {
                &&& enc.wf()
                &&& enc.config() == *self
                &&& enc.content() == Seq::<u8>::empty()
                &&& enc.parts_view() == Seq::<Seq<u8>>::empty()
                &&& enc.base() == w.contents()
                &&& enc.sink_view() == w.contents() + header_bytes(*self)
                &&& enc.synced()
                &&& enc.sink_infallible() == w.infallible()
            },
    {
        let ghost base = w.contents();
        let limit = self.block_size.get_size();
        let mut enc = Encoder {
            c: EncoderContext::new(*self),
            w,
            limit,
            buffer: Vec::with_capacity(limit + 16),
            base: Ghost(base),
        };
        match enc.write_header() {
            Ok(()) => {
                proof {
                    assert(enc.sink_view() =~= base + header_bytes(*self) + body_bytes(
                        enc.parts_view(),
                    ));
                }
                Ok(enc)
            },
            Err(e) => Err(e),
        }
    }
}

/// A streaming frame encoder: owns the engine state, the destination sink
/// and one scratch buffer, and accepts arbitrary-sized chunks of input.
pub struct Encoder<W: ByteSink> {
    c: EncoderContext,
    w: W,
    limit: usize,
    buffer: Vec<u8>,
    base: Ghost<Seq<u8>>,
}

impl<W: ByteSink> Encoder<W> {
    pub closed spec fn wf(&self) -> bool {
        &&& self.c.wf()
        &&& self.limit == block_bytes(self.c.cfg.block_size)
    }

    /// The configuration this session was built with.
    pub closed spec fn config(&self) -> EncoderBuilder {
        self.c.cfg
    }

    /// Every byte accepted so far: the content the finished frame stands for.
    pub closed spec fn content(&self) -> Seq<u8> {
        self.c.fed()
    }

    /// The block payloads already emitted to the sink, in order.
    pub closed spec fn parts_view(&self) -> Seq<Seq<u8>> {
        self.c.parts@
    }

    /// Accepted bytes still buffered, not yet emitted as a block.
    pub closed spec fn pending_bytes(&self) -> Seq<u8> {
        self.c.pending@
    }

    /// The bytes the sink holds.
    pub closed spec fn sink_view(&self) -> Seq<u8> {
        self.w.contents()
    }

    /// The bytes the sink held when the session was built.
    pub closed spec fn base(&self) -> Seq<u8> {
        self.base@
    }

    /// Whether the owned sink accepts every write and flush; when it does,
    /// every operation of the encoder owes success.
    pub closed spec fn sink_infallible(&self) -> bool {
        self.w.infallible()
    }

    /// The sink holds exactly what it started with, the header, and the
    /// framing of every emitted block payload.  Established at build time
    /// and preserved by every operation that returns success.
    pub open spec fn synced(&self) -> bool {
        self.sink_view() == self.base() + header_bytes(self.config()) + body_bytes(
            self.parts_view(),
        )
    }

    fn write_header(&mut self) -> (r: Result<(), Error>)
        requires
            old(self).wf(),
        ensures
            final(self).wf(),
            final(self).c == old(self).c,
            final(self).base == old(self).base,
            final(self).limit == old(self).limit,
            final(self).w.infallible() == old(self).w.infallible(),
            old(self).w.infallible() ==> r is Ok,
            r is Ok ==> final(self).w.contents() == old(self).w.contents() + header_bytes(
                old(self).c.cfg,
            ),
    {
        self.c.begin(&mut self.buffer);
        self.w.write_all(self.buffer.as_slice())
    }

    /// Immutable sink reference.
    pub fn writer(&self) -> (r: &W)
        ensures
            r.contents() == self.sink_view(),
    {
        &self.w
    }

    /// Accepts a whole chunk of any size: it is sliced into pieces of at
    /// most one block, and each piece is handed to the engine and its framed
    /// output written to the sink, so peak memory stays at one scratch
    /// buffer however large the chunk.  On success the whole chunk is
    /// accepted, never a prefix; on a sink failure a prefix may have been
    /// consumed and the stream is not safe to continue.  An empty chunk
    /// always succeeds without touching the sink, and an infallible sink
    /// makes every write succeed.
    pub fn write(&mut self, buffer: &[u8]) -> (r: Result<usize, Error>)
        requires
            old(self).wf(),
        ensures
            final(self).wf(),
            final(self).config() == old(self).config(),
            final(self).base() == old(self).base(),
            final(self).sink_infallible() == old(self).sink_infallible(),
            old(self).sink_infallible() ==> r is Ok,
            buffer@.len() == 0 ==> r is Ok,
            old(self).parts_view().is_prefix_of(final(self).parts_view()),
            valid_parts(final(self).config(), final(self).parts_view()),
            !old(self).config().auto_flush ==> forall|i: int|
                old(self).parts_view().len() <= i < final(self).parts_view().len() ==> (
                #[trigger] final(self).parts_view()[i]).len() == block_bytes(
                    old(self).config().block_size,
                ),
            r matches Ok(n) ==> {
                &&& n == buffer@.len()
                &&& final(self).content() == old(self).content() + buffer@
                &&& final(self).sink_view() == old(self).sink_view() + body_bytes(
                    final(self).parts_view().skip(old(self).parts_view().len() as int),
                )
                &&& (old(self).synced() ==> final(self).synced())
                &&& (old(self).config().auto_flush ==> final(self).pending_bytes().len() == 0)
                &&& (old(self).config().auto_flush ==> final(self).parts_view() == old(
                    self,
                ).parts_view() + chunked(buffer@, block_bytes(old(self).config().block_size)))
            },
            r is Err ==> exists|k: int|
                0 <= k <= buffer@.len() && final(self).content() == old(self).content()
                    + #[trigger] buffer@.subrange(0, k),
    {
        let len = buffer.len();
        let mut offset: usize = 0;
        proof {
            assert(buffer@.skip(0) =~= buffer@);
        }
        while offset < len
            invariant
                self.wf(),
                self.c.cfg == old(self).c.cfg,
                self.base == old(self).base,
                self.limit == old(self).limit,
                len == buffer@.len(),
                offset <= len,
                self.c.fed() == old(self).c.fed() + buffer@.subrange(0, offset as int),
                old(self).c.parts@.is_prefix_of(self.c.parts@),
                self.w.contents() == old(self).w.contents() + body_bytes(
                    self.c.parts@.skip(old(self).c.parts@.len() as int),
                ),
                self.w.infallible() == old(self).w.infallible(),
                !old(self).c.cfg.auto_flush ==> forall|i: int|
                    old(self).c.parts@.len() <= i < self.c.parts@.len() ==> (
                    #[trigger] self.c.parts@[i]).len() == block_bytes(
                        old(self).c.cfg.block_size,
                    ),
                old(self).c.cfg.auto_flush ==> self.c.parts@ + chunked(
                    buffer@.skip(offset as int),
                    block_bytes(old(self).c.cfg.block_size),
                ) == old(self).c.parts@ + chunked(
                    buffer@,
                    block_bytes(old(self).c.cfg.block_size),
                ),
            decreases len - offset,
        {
            let size = if len - offset < self.limit {
                len - offset
            } else {
                self.limit
            };
            let chunk = slice_subrange(buffer, offset, offset + size);
            let ghost parts_before = self.c.parts@;
            let ghost sink_before = self.w.contents();
            self.c.update(&mut self.buffer, chunk);
            proof {
                lemma_skip_parts(old(self).c.parts@, parts_before, self.c.parts@);
                lemma_body_app(
                    parts_before.skip(old(self).c.parts@.len() as int),
                    self.c.parts@.skip(parts_before.len() as int),
                );
                if !self.c.cfg.auto_flush {
                    assert(parts_before =~= self.c.parts@.subrange(0, parts_before.len() as int));
                    assert forall|i: int|
                        old(self).c.parts@.len() <= i < self.c.parts@.len() implies (
                    #[trigger] self.c.parts@[i]).len() == block_bytes(
                        old(self).c.cfg.block_size,
                    ) by {
                        if i < parts_before.len() {
                            assert(self.c.parts@[i] == parts_before[i]);
                        }
                    }
                } else {
                    let lim = block_bytes(old(self).c.cfg.block_size);
                    let rem = buffer@.skip(offset as int);
                    assert(rem.len() == len - offset);
                    if rem.len() <= lim {
                        assert(chunk@ =~= rem);
                        assert(chunked(rem, lim) == seq![rem]);
                        assert(buffer@.skip((offset + size) as int).len() == 0);
                    } else {
                        assert(chunk@ =~= rem.take(lim as int));
                        assert(rem.skip(lim as int) =~= buffer@.skip((offset + size) as int));
                    }
                    assert(parts_before + seq![chunk@] =~= parts_before.push(chunk@));
                    assert((old(self).c.parts@ + chunked(buffer@, lim)) =~= (parts_before + seq![
                        chunk@,
                    ]) + chunked(buffer@.skip((offset + size) as int), lim));
                }
            }
            proof {
                assert(buffer@.subrange(0, offset as int) + chunk@ =~= buffer@.subrange(
                    0,
                    (offset + size) as int,
                ));
                assert(self.c.fed() =~= old(self).c.fed() + buffer@.subrange(
                    0,
                    (offset + size) as int,
                ));
            }
            match self.w.write_all(self.buffer.as_slice()) {
                Ok(()) => {},
                Err(_) => {
                    return Err(Error::Sink);
                },
            }
            proof {
                assert(self.w.contents() =~= old(self).w.contents() + body_bytes(
                    self.c.parts@.skip(old(self).c.parts@.len() as int),
                ));
            }
            offset = offset + size;
        }
        proof {
            assert(buffer@.subrange(0, len as int) =~= buffer@);
            if old(self).c.cfg.auto_flush {
                assert(self.c.parts@ + chunked(
                    buffer@.skip(len as int),
                    block_bytes(old(self).c.cfg.block_size),
                ) =~= self.c.parts@);
            }
            if old(self).synced() {
                assert(self.c.parts@ =~= old(self).c.parts@ + self.c.parts@.skip(
                    old(self).c.parts@.len() as int,
                ));
                lemma_body_app(
                    old(self).c.parts@,
                    self.c.parts@.skip(old(self).c.parts@.len() as int),
                );
                assert(self.w.contents() =~= self.base@ + header_bytes(self.c.cfg) + body_bytes(
                    self.c.parts@,
                ));
            }
        }
        Ok(len)
    }

    /// Drains what the engine still buffers — the loop is proved to
    /// terminate — then flushes the sink itself.  Once a flush has
    /// succeeded, an immediate second flush writes nothing further, and an
    /// infallible sink makes every flush succeed.
    pub fn flush(&mut self) -> (r: Result<(), Error>)
        requires
            old(self).wf(),
        ensures
            final(self).wf(),
            final(self).config() == old(self).config(),
            final(self).base() == old(self).base(),
            final(self).content() == old(self).content(),
            final(self).sink_infallible() == old(self).sink_infallible(),
            old(self).sink_infallible() ==> r is Ok,
            old(self).parts_view().is_prefix_of(final(self).parts_view()),
            valid_parts(final(self).config(), final(self).parts_view()),
            r is Ok ==> {
                &&& final(self).pending_bytes().len() == 0
                &&& final(self).parts_view() == (if old(self).pending_bytes().len() == 0 {
                    old(self).parts_view()
                } else {
                    old(self).parts_view().push(old(self).pending_bytes())
                })
                &&& final(self).sink_view() == old(self).sink_view() + body_bytes(
                    final(self).parts_view().skip(old(self).parts_view().len() as int),
                )
                &&& (old(self).synced() ==> final(self).synced())
                &&& (old(self).pending_bytes().len() == 0 ==> final(self).sink_view() == old(
                    self,
                ).sink_view())
            },
    {
        self.c.flush(&mut self.buffer);
        while self.buffer.len() > 0
            invariant
                self.wf(),
                self.c.cfg == old(self).c.cfg,
                self.base == old(self).base,
                self.limit == old(self).limit,
                self.c.fed() == old(self).c.fed(),
                self.c.pending@.len() == 0,
                old(self).c.parts@.is_prefix_of(self.c.parts@),
                self.c.parts@ == (if old(self).c.pending@.len() == 0 {
                    old(self).c.parts@
                } else {
                    old(self).c.parts@.push(old(self).c.pending@)
                }),
                self.w.contents() + self.buffer@ == old(self).w.contents() + body_bytes(
                    self.c.parts@.skip(old(self).c.parts@.len() as int),
                ),
                self.w.infallible() == old(self).w.infallible(),
            decreases self.buffer@.len(),
        {
            match self.w.write_all(self.buffer.as_slice()) {
                Ok(()) => {},
                Err(_) => {
                    return Err(Error::Sink);
                },
            }
            self.c.flush(&mut self.buffer);
            proof {
                assert(self.w.contents() + self.buffer@ =~= self.w.contents());
            }
        }
        proof {
            assert(self.w.contents() + self.buffer@ =~= self.w.contents());
        }
        match self.w.flush() {
            Ok(()) => {
                proof {
                    if old(self).synced() {
                        assert(self.c.parts@ =~= old(self).c.parts@ + self.c.parts@.skip(
                            old(self).c.parts@.len() as int,
                        ));
                        lemma_body_app(
                            old(self).c.parts@,
                            self.c.parts@.skip(old(self).c.parts@.len() as int),
                        );
                        assert(self.w.contents() =~= self.base@ + header_bytes(self.c.cfg)
                            + body_bytes(self.c.parts@));
                    }
                }
                Ok(())
            },
            Err(_) => Err(Error::Sink),
        }
    }

    fn write_end(&mut self) -> (r: Result<(), Error>)
        requires
            old(self).wf(),
        ensures
            final(self).wf(),
            final(self).config() == old(self).config(),
            final(self).base() == old(self).base(),
            final(self).content() == old(self).content(),
            final(self).sink_infallible() == old(self).sink_infallible(),
            old(self).sink_infallible() ==> r is Ok,
            final(self).pending_bytes().len() == 0,
            final(self).parts_view() == (if old(self).pending_bytes().len() == 0 {
                old(self).parts_view()
            } else {
                old(self).parts_view().push(old(self).pending_bytes())
            }),
            r is Ok ==> final(self).sink_view() == old(self).sink_view() + body_bytes(
                final(self).parts_view().skip(old(self).parts_view().len() as int),
            ) + footer_bytes(old(self).config(), old(self).content()),
    {
        self.c.end(&mut self.buffer);
        self.w.write_all(self.buffer.as_slice())
    }

    /// Ends the session: writes the frame footer, then hands the sink back
    /// whatever happened — the sink is returned by value on the success and
    /// the failure path alike, so the caller always regains it, even when
    /// footer emission failed.  On success the sink holds one complete
    /// frame for exactly the accepted content, and an infallible sink makes
    /// the footer write succeed.
    pub fn finish(self) -> (r: (W, Result<(), Error>))
        requires
            self.wf(),
        ensures
            r.0.infallible() == self.sink_infallible(),
            self.sink_infallible() ==> r.1 is Ok,
            r.1 is Ok ==> r.0.contents() == self.sink_view() + (if self.pending_bytes().len()
                == 0 {
                Seq::<u8>::empty()
            } else {
                block_frame(self.pending_bytes())
            }) + footer_bytes(self.config(), self.content()),
            r.1 is Ok && self.synced() ==> {
                &&& self.base().is_prefix_of(r.0.contents())
                &&& is_frame_for(
                    self.config(),
                    self.content(),
                    r.0.contents().skip(self.base().len() as int),
                )
            },
    {
        let mut s = self;
        let result = s.write_end();
        proof {
            if result is Ok {
                let all = if self.pending_bytes().len() == 0 {
                    self.parts_view()
                } else {
                    self.parts_view().push(self.pending_bytes())
                };
                if self.pending_bytes().len() == 0 {
                    assert(s.parts_view().skip(self.parts_view().len() as int) =~= Seq::<
                        Seq<u8>,
                    >::empty());
                } else {
                    lemma_body_push(Seq::<Seq<u8>>::empty(), self.pending_bytes());
                    assert(s.parts_view().skip(self.parts_view().len() as int) =~= Seq::<
                        Seq<u8>,
                    >::empty().push(self.pending_bytes()));
                }
                if self.synced() {
                    lemma_concat_push(self.parts_view(), self.pending_bytes());
                    lemma_body_app(
                        self.parts_view(),
                        s.parts_view().skip(self.parts_view().len() as int),
                    );
                    assert(all =~= self.parts_view() + s.parts_view().skip(
                        self.parts_view().len() as int,
                    ));
                    assert(concat_parts(all) == self.content());
                    lemma_frame_for_parts(self.config(), all);
                    assert(s.w.contents().skip(self.base().len() as int) =~= header_bytes(
                        self.config(),
                    ) + body_bytes(all) + footer_bytes(self.config(), self.content()));
                }
            }
        }
        (s.w, result)
    }
}


/// Skipping a prefix commutes with extending on the right: the fresh tail
/// of a twice-grown payload sequence splits at the middle stage.
proof fn lemma_skip_parts(a: Seq<Seq<u8>>, b: Seq<Seq<u8>>, c: Seq<Seq<u8>>)
    requires
        a.is_prefix_of(b),
        b.is_prefix_of(c),
    ensures
        a.is_prefix_of(c),
        c.skip(a.len() as int) == b.skip(a.len() as int) + c.skip(b.len() as int),
{
    assert(a =~= c.subrange(0, a.len() as int));
    assert(c.skip(a.len() as int) =~= b.skip(a.len() as int) + c.skip(b.len() as int));
}

} // verus!
