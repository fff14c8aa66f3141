//! Byte sinks: where the encoder puts what it produces.

use crate::error::Error;
use vstd::prelude::*;

verus! {

/// A sink that accepts bytes in order until its capacity is used up.
///
/// A sink is handed over with each write and comes back in the result, so
/// a failed write leaves nothing behind to write to.
pub trait Writer: Sized {
    /// The bytes that the sink has accepted so far, oldest first.
    spec fn written(&self) -> Seq<u8>;

    /// How many more bytes the sink accepts.
    spec fn remaining(&self) -> nat;

    /// How many more bytes the sink accepts.
    fn capacity(&self) -> (n: usize)
        ensures
            n == self.remaining(),
    ;

    /// Appends the byte `v`, or fails if the sink is full.
    fn write_one(self, v: u8) -> (r: Result<Self, Error>)
        ensures
            self.remaining() >= 1 ==> r is Ok && r->Ok_0.written() == self.written().push(v)
                && r->Ok_0.remaining() == self.remaining() - 1,
            self.remaining() == 0 ==> r is Err && r->Err_0 == (Error::OutputBufferTooSmall {
                size: 0,
                required: 1,
            }),
    ;

    /// Appends all of `v`, or fails without writing if `v` does not fit.
    fn write_many(self, v: &[u8]) -> (r: Result<Self, Error>)
        ensures
            self.remaining() >= v@.len() ==> r is Ok && r->Ok_0.written() == self.written() + v@
                && r->Ok_0.remaining() == self.remaining() - v@.len(),
            self.remaining() < v@.len() ==> r is Err && r->Err_0 == (Error::OutputBufferTooSmall {
                size: self.remaining() as usize,
                required: v@.len() as usize,
            }),
    ;
}

/// What a write of `bytes` to the sink `before` results in, as the two write
/// methods of [`Writer`] state it: the sink with `bytes` appended and that
/// much less room where they fit, and otherwise the failure that names the
/// room there was and the room it took.
pub open spec fn wrote<W: Writer>(before: W, bytes: Seq<u8>, r: Result<W, Error>) -> bool {
    if bytes.len() <= before.remaining() {
        &&& r matches Ok(after)
        &&& after.written() == before.written() + bytes
        &&& after.remaining() == before.remaining() - bytes.len()
    } else {
        r matches Err(e) && e == (Error::OutputBufferTooSmall {
            size: before.remaining() as usize,
            required: bytes.len() as usize,
        })
    }
}

/// What several writes that come to `bytes` result in for the sink
/// `before`: the sink with `bytes` appended and that much less room where
/// they fit, and otherwise a failure for want of room.
pub open spec fn appended<W: Writer>(before: W, bytes: Seq<u8>, r: Result<W, Error>) -> bool {
    if bytes.len() <= before.remaining() {
        &&& r matches Ok(after)
        &&& after.written() == before.written() + bytes
        &&& after.remaining() == before.remaining() - bytes.len()
    } else {
        r matches Err(e) && e is OutputBufferTooSmall
    }
}

/// An in-memory sink of fixed capacity.
pub struct BytesMut {
    buf: Vec<u8>,
    limit: usize,
}

impl BytesMut {
    /// An empty sink that accepts `limit` bytes.
    pub fn new(limit: usize) -> (w: BytesMut)
        ensures
            w.written() == Seq::<u8>::empty(),
            w.remaining() == limit,
    {
        BytesMut { buf: Vec::new(), limit }
    }

    /// The bytes written so far.
    pub fn as_slice(&self) -> (s: &[u8])
        ensures
            s@ == self.written(),
    {
        self.buf.as_slice()
    }

    /// Gives up the sink for the bytes written to it.
    pub fn into_vec(self) -> (v: Vec<u8>)
        ensures
            v@ == self.written(),
    {
        self.buf
    }
}

impl Writer for BytesMut {
    closed spec fn written(&self) -> Seq<u8> {
        self.buf@
    }

    closed spec fn remaining(&self) -> nat {
        if self.buf@.len() <= self.limit {
            (self.limit - self.buf@.len()) as nat
        } else {
            0
        }
    }

    fn capacity(&self) -> (n: usize) {
        if self.buf.len() <= self.limit {
            self.limit - self.buf.len()
        } else {
            0
        }
    }

    fn write_one(self, v: u8) -> (r: Result<Self, Error>) {
        if self.buf.len() < self.limit {
            let mut w = self;
            w.buf.push(v);
            Ok(w)
        } else {
            Err(Error::OutputBufferTooSmall { size: 0, required: 1 })
        }
    }

    fn write_many(self, v: &[u8]) -> (r: Result<Self, Error>) {
        let room = self.capacity();
        if v.len() <= room {
            let mut w = self;
            let mut i: usize = 0;
            while i < v.len()
                invariant
                    i <= v@.len(),
                    w.limit == self.limit,
                    w.buf@ == self.buf@ + v@.subrange(0, i as int),
                decreases v@.len() - i,
            {
                w.buf.push(v[i]);
                assert(v@.subrange(0, i + 1) == v@.subrange(0, i as int).push(v@[i as int]));
                i += 1;
            }
            assert(v@.subrange(0, i as int) == v@);
            Ok(w)
        } else {
            Err(Error::OutputBufferTooSmall { size: room, required: v.len() })
        }
    }
}

} // verus!
