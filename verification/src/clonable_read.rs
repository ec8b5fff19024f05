//! A byte reader that can be duplicated.

use vstd::prelude::*;
use vstd::math::min;
use crate::readslice::ReadSlice;

verus! {

/// A readable byte stream that can be cloned; each clone reads on
/// independently from the position it was cloned at.
#[derive(Clone)]
pub struct ClonableRead {
    inner: ReadSlice,
}

impl View for ClonableRead {
    type V = Seq<u8>;

    closed spec fn view(&self) -> Seq<u8> {
        self.inner@
    }
}

impl ClonableRead {
    /// Bytes consumed so far.
    pub closed spec fn spec_pos(&self) -> int {
        self.inner.spec_pos()
    }

    /// The bytes not yet read.
    pub open spec fn remaining(&self) -> Seq<u8> {
        self@.skip(self.spec_pos())
    }

    /// Wraps a byte buffer as a cloneable reader.
    pub fn new(v: Vec<u8>) -> (r: Self)
        ensures
            r@ == v@,
            r.spec_pos() == 0,
    {
        ClonableRead { inner: ReadSlice::new(v) }
    }

    /// Copies bytes into the front of `buf`, stopping at the end of `buf`
    /// or of the stream; the rest of `buf` is untouched.
    pub fn read(&mut self, buf: &mut Vec<u8>) -> (r: usize)
        ensures
            r == min(old(buf)@.len() as int, old(self).remaining().len() as int),
            final(buf)@.len() == old(buf)@.len(),
            final(buf)@ == old(self).remaining().take(r as int) + old(buf)@.skip(r as int),
            final(self)@ == old(self)@,
            final(self).spec_pos() == old(self).spec_pos() + r,
    {
        self.inner.read(buf)
    }
}

} // verus!
