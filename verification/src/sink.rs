//! Byte sinks: the destination an encoder writes the frame to.

use vstd::prelude::*;

verus! {

/// The error channel of the encoder.  The compression engine itself never
/// fails here, so every failure an operation can surface comes from the
/// sink's refusal to accept or flush bytes.
#[derive(Clone, Copy, Debug, PartialEq, Eq, Structural)]
pub enum Error {
    /// The sink rejected a write or a flush.
    Sink,
}

/// A blocking, all-or-nothing byte sink.
///
/// `contents` models the bytes the sink has accepted so far.  A successful
/// `write_all` appends exactly its argument; a successful `flush` changes
/// nothing.  After a failure the sink's contents are unspecified — it may
/// have kept a prefix of the rejected bytes.  A sink that declares itself
/// `infallible` owes success on every operation, and stays infallible.
pub trait ByteSink: Sized {
    spec fn contents(&self) -> Seq<u8>;

    /// Whether this sink accepts every write and flush.
    spec fn infallible(&self) -> bool;

    fn write_all(&mut self, data: &[u8]) -> (r: Result<(), Error>)
        ensures
            r is Ok ==> final(self).contents() == old(self).contents() + data@,
            final(self).infallible() == old(self).infallible(),
            old(self).infallible() ==> r is Ok,
    ;

    fn flush(&mut self) -> (r: Result<(), Error>)
        ensures
            r is Ok ==> final(self).contents() == old(self).contents(),
            final(self).infallible() == old(self).infallible(),
            old(self).infallible() ==> r is Ok,
    ;
}

/// A growable in-memory sink that accepts everything.
pub struct VecSink {
    data: Vec<u8>,
}

impl VecSink {
    pub fn new() -> (r: Self)
        ensures
            r.contents() == Seq::<u8>::empty(),
            r.infallible(),
    {
        VecSink { data: Vec::new() }
    }

    /// The number of bytes accepted so far.
    pub fn len(&self) -> (n: usize)
        ensures
            n == self.contents().len(),
    {
        self.data.len()
    }

    /// Hands the accepted bytes back.
    pub fn into_vec(self) -> (r: Vec<u8>)
        ensures
            r@ == self.contents(),
    {
        self.data
    }
}

impl ByteSink for VecSink {
    closed spec fn contents(&self) -> Seq<u8> {
        self.data@
    }

    closed spec fn infallible(&self) -> bool {
        true
    }

    fn write_all(&mut self, data: &[u8]) -> (r: Result<(), Error>)
        ensures
            r is Ok,
    {
        crate::sink::append_bytes(&mut self.data, data);
        Ok(())
    }

    fn flush(&mut self) -> (r: Result<(), Error>)
        ensures
            r is Ok,
    {
        Ok(())
    }
}

/// An in-memory sink of fixed capacity: a write that would overflow it is
/// rejected whole.  Useful to exercise the encoder's failure paths.
pub struct BoundedSink {
    data: Vec<u8>,
    cap: usize,
}

impl BoundedSink {
    /// The sink's capacity in bytes.
    pub closed spec fn capacity(&self) -> nat {
        self.cap as nat
    }

    pub fn new(cap: usize) -> (r: Self)
        ensures
            r.contents() == Seq::<u8>::empty(),
            r.capacity() == cap,
            !r.infallible(),
    {
        BoundedSink { data: Vec::new(), cap }
    }

    /// The number of bytes accepted so far.
    pub fn len(&self) -> (n: usize)
        ensures
            n == self.contents().len(),
    {
        self.data.len()
    }

    /// Hands the accepted bytes back.
    pub fn into_vec(self) -> (r: Vec<u8>)
        ensures
            r@ == self.contents(),
    {
        self.data
    }
}

impl ByteSink for BoundedSink {
    closed spec fn contents(&self) -> Seq<u8> {
        self.data@
    }

    closed spec fn infallible(&self) -> bool {
        false
    }

    fn write_all(&mut self, data: &[u8]) -> (r: Result<(), Error>)
        ensures
            r is Ok <==> old(self).contents().len() + data@.len() <= old(self).capacity(),
            r is Err ==> *final(self) == *old(self),
    {
        if self.data.len() <= self.cap && data.len() <= self.cap - self.data.len() {
            crate::sink::append_bytes(&mut self.data, data);
            Ok(())
        } else {
            Err(Error::Sink)
        }
    }

    fn flush(&mut self) -> (r: Result<(), Error>)
        ensures
            r is Ok,
    {
        Ok(())
    }
}

/// Appends a whole slice to a byte vector.
pub(crate) fn append_bytes(dst: &mut Vec<u8>, src: &[u8])
    ensures
        final(dst)@ == old(dst)@ + src@,
{
    let n = src.len();
    let mut i: usize = 0;
    while i < n
        invariant
            n == src@.len(),
            i <= n,
            dst@ == old(dst)@ + src@.subrange(0, i as int),
        decreases n - i,
    {
        dst.push(src[i]);
        proof {
            assert(old(dst)@ + src@.subrange(0, i + 1 as int) =~= (old(dst)@ + src@.subrange(
                0,
                i as int,
            )).push(src@[i as int]));
        }
        i = i + 1;
    }
    proof {
        assert(src@.subrange(0, n as int) =~= src@);
    }
}

} // verus!
