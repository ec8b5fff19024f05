//! A one-shot reader over pre-serialized bytes.
//!
//! Anything that knows its wire encoding can hand it out as a
//! `BytesSerializer`, which is then read like any other byte stream.

use vstd::prelude::*;
use vstd::math::min;
use crate::readslice::ReadSlice;

verus! {

/// A cursor over the serialized bytes of one value.
pub struct BytesSerializer {
    inner: ReadSlice,
}

impl View for BytesSerializer {
    type V = Seq<u8>;

    /// All serialized bytes, regardless of the cursor.
    closed spec fn view(&self) -> Seq<u8> {
        self.inner@
    }
}

impl BytesSerializer {
    /// Bytes handed out so far.
    pub closed spec fn spec_pos(&self) -> int {
        self.inner.spec_pos()
    }

    /// The bytes not yet handed out.
    pub open spec fn remaining(&self) -> Seq<u8> {
        self@.skip(self.spec_pos())
    }

    /// The cursor always lies inside the serialized bytes.
    pub open spec fn pos_wf(&self) -> bool {
        0 <= self.spec_pos() <= self@.len()
    }

    /// Wraps serialized bytes with a cursor at the front.
    pub fn new(value: Vec<u8>) -> (r: Self)
        ensures
            r@ == value@,
            r.spec_pos() == 0,
            r.pos_wf(),
    {
        BytesSerializer { inner: ReadSlice::new(value) }
    }

    /// Copies bytes into the front of `buf`, stopping at the end of `buf`
    /// or of the serialized bytes; the rest of `buf` is untouched.
    pub fn read(&mut self, buf: &mut Vec<u8>) -> (r: usize)
        ensures
            r == min(old(buf)@.len() as int, old(self).remaining().len() as int),
            final(buf)@.len() == old(buf)@.len(),
            final(buf)@ == old(self).remaining().take(r as int) + old(buf)@.skip(r as int),
            final(self)@ == old(self)@,
            final(self).spec_pos() == old(self).spec_pos() + r,
            final(self).pos_wf(),
    {
        self.inner.read(buf)
    }

    /// Consumes and returns everything not yet handed out.
    pub fn read_remaining(&mut self) -> (r: Vec<u8>)
        ensures
            r@ == old(self).remaining(),
            final(self)@ == old(self)@,
            final(self).remaining().len() == 0,
            final(self).pos_wf(),
    {
        self.inner.read_remaining()
    }
}

/// A value that can hand out its wire encoding as a byte stream.
pub trait IntoBytesSerializer: Sized {
    /// When the value can be encoded at all.
    spec fn encodable(&self) -> bool;

    /// The wire bytes the value serializes to.
    spec fn encoding(&self) -> Seq<u8>;

    /// Serializes the value.
    fn into_bytes(self) -> (r: BytesSerializer)
        requires
            self.encodable(),
        ensures
            r@ == self.encoding(),
            r.spec_pos() == 0,
            r.pos_wf(),
    ;
}

} // verus!
