//! Discarding a fixed number of bytes from the front of a stream.
//!
//! A `Drain` wraps a stream and a limit; before anything can be read
//! through it, the first `limit` bytes are consumed and thrown away.
//! Running out of bytes before the limit is reached is an error.

use vstd::prelude::*;
use vstd::math::min;
use crate::error::DiffError;
use crate::readslice::ReadSlice;

verus! {

/// A stream whose first `limit` bytes are to be discarded.
pub struct Drain {
    inner: ReadSlice,
    limit: u64,
    drained: u64,
}

impl Drain {
    /// The wrapped stream.
    pub closed spec fn stream(&self) -> ReadSlice {
        self.inner
    }

    /// How many bytes are to be discarded in total.
    pub closed spec fn spec_limit(&self) -> int {
        self.limit as int
    }

    /// How many bytes have been discarded so far.
    pub closed spec fn spec_drained(&self) -> int {
        self.drained as int
    }

    /// How many bytes still have to be discarded.
    pub open spec fn to_drain(&self) -> int {
        if self.spec_limit() - self.spec_drained() >= 0 {
            self.spec_limit() - self.spec_drained()
        } else {
            0
        }
    }

    /// Wraps a stream; the first `limit` unread bytes will be discarded.
    pub fn new(inner: ReadSlice, limit: u64) -> (r: Self)
        ensures
            r.stream() == inner,
            r.spec_limit() == limit,
            r.spec_drained() == 0,
    {
        Drain { inner, limit, drained: 0 }
    }

    /// Unwraps the stream without touching it.
    pub fn into_inner(self) -> (r: ReadSlice)
        ensures
            r == self.stream(),
    {
        self.inner
    }

    /// A shared borrow of the stream.
    pub fn get_ref(&self) -> (r: &ReadSlice)
        ensures
            *r == self.stream(),
    {
        &self.inner
    }

    /// A mutable borrow of the stream.
    pub fn get_mut(&mut self) -> (r: &mut ReadSlice)
        ensures
            *r == old(self).stream(),
            final(self).stream() == *final(r),
            final(self).spec_limit() == old(self).spec_limit(),
            final(self).spec_drained() == old(self).spec_drained(),
    {
        &mut self.inner
    }

    /// Discards bytes until the limit is reached. Fails with the
    /// end-of-stream error when the stream runs dry first, leaving the
    /// stream exhausted.
    pub fn get_drained(&mut self) -> (r: Result<(), DiffError>)
        ensures
            final(self).spec_limit() == old(self).spec_limit(),
            final(self).stream()@ == old(self).stream()@,
            old(self).stream().remaining().len() >= old(self).to_drain() ==> {
                &&& r is Ok
                &&& final(self).to_drain() == 0
                &&& final(self).stream().remaining() == old(self).stream().remaining().skip(
                    old(self).to_drain(),
                )
            },
            old(self).stream().remaining().len() < old(self).to_drain() ==> {
                &&& r == Err::<(), DiffError>(DiffError::UnexpectedEof)
                &&& final(self).stream().remaining().len() == 0
            },
    {
        if self.drained >= self.limit {
            proof {
                assert(old(self).stream().remaining().skip(0) =~= old(self).stream().remaining());
            }
            return Ok(());
        }
        let want = self.limit - self.drained;
        let have = self.inner.size() - self.inner.position();
        let pos = self.inner.position();
        if have < want {
            self.inner.set_position(pos + have);
            self.drained = self.drained + have;
            return Err(DiffError::UnexpectedEof);
        }
        self.inner.set_position(pos + want);
        self.drained = self.limit;
        proof {
            assert(final(self).stream().remaining() =~= old(self).stream().remaining().skip(
                want as int,
            ));
        }
        Ok(())
    }

    /// Discards up to the limit, then returns everything left.
    pub fn read_remaining(&mut self) -> (r: Result<Vec<u8>, DiffError>)
        ensures
            old(self).stream().remaining().len() >= old(self).to_drain() ==> (r matches Ok(v)
                && v@ == old(self).stream().remaining().skip(old(self).to_drain())),
            old(self).stream().remaining().len() < old(self).to_drain() ==> r == Err::<
                Vec<u8>,
                DiffError,
            >(DiffError::UnexpectedEof),
    {
        self.get_drained()?;
        Ok(self.inner.read_remaining())
    }

    /// Discards up to the limit, then reads into the front of `buf` as the
    /// stream itself would.
    pub fn read(&mut self, buf: &mut Vec<u8>) -> (r: Result<usize, DiffError>)
        ensures
            final(buf)@.len() == old(buf)@.len(),
            old(self).stream().remaining().len() < old(self).to_drain() ==> r == Err::<
                usize,
                DiffError,
            >(DiffError::UnexpectedEof) && final(buf)@ == old(buf)@,
            old(self).stream().remaining().len() >= old(self).to_drain() ==> {
                let rest = old(self).stream().remaining().skip(old(self).to_drain());
                &&& r matches Ok(n)
                &&& n == min(old(buf)@.len() as int, rest.len() as int)
                &&& final(buf)@ == rest.take(n as int) + old(buf)@.skip(n as int)
            },
    {
        self.get_drained()?;
        Ok(self.inner.read(buf))
    }
}

/// A readable stream whose front can be discarded.
pub trait Drainable: Sized {
    /// Wraps the stream so that its next `limit` bytes are discarded
    /// before anything else is read.
    fn drain(self, limit: u64) -> (r: Drain);
}

impl Drainable for ReadSlice {
    fn drain(self, limit: u64) -> (r: Drain)
        ensures
            r.stream() == self,
            r.spec_limit() == limit,
            r.spec_drained() == 0,
    {
        Drain::new(self, limit)
    }
}

} // verus!
