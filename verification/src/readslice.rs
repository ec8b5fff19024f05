//! A composable, seekable view over a byte buffer.
//!
//! A `ReadSlice` is a window into owned bytes together with a cursor.
//! `offset` and `take` shrink the window, `chain` concatenates two views,
//! and `read` copies bytes from the cursor onwards. The engine uses these
//! views to carry the data payload of diff blocks without re-reading the
//! edited input.

use vstd::prelude::*;
use vstd::math::min;

verus! {

/// A window `[start, start + size)` into `data`, with a cursor `position`
/// relative to the window start.
pub struct ReadSlice {
    data: Vec<u8>,
    start: usize,
    size: usize,
    position: usize,
}

impl Clone for ReadSlice {
    /// A clone shows the same bytes and cursor as the original.
    fn clone(&self) -> (r: Self)
        ensures
            r@ == self@,
            r.spec_pos() == self.spec_pos(),
    {
        proof {
            use_type_invariant(self);
        }
        let r = ReadSlice {
            data: self.data.clone(),
            start: self.start,
            size: self.size,
            position: self.position,
        };
        proof {
            assert(r@ =~= self@);
        }
        r
    }
}

impl View for ReadSlice {
    type V = Seq<u8>;

    /// The visible bytes of the view, regardless of the cursor.
    closed spec fn view(&self) -> Seq<u8> {
        self.data@.subrange(self.start as int, self.start + self.size)
    }
}

impl ReadSlice {
    #[verifier::type_invariant]
    spec fn type_inv(self) -> bool {
        &&& self.start + self.size <= self.data.len()
        &&& self.position <= self.size
    }

    /// How many bytes have been consumed so far.
    pub closed spec fn spec_pos(&self) -> int {
        min(self.position as int, self@.len() as int)
    }

    /// The cursor always lies inside the view.
    pub open spec fn pos_wf(&self) -> bool {
        0 <= self.spec_pos() <= self@.len()
    }

    /// The bytes from the cursor to the end of the view.
    pub open spec fn remaining(&self) -> Seq<u8> {
        self@.skip(self.spec_pos())
    }

    /// Wraps a byte buffer as a full view with the cursor at the front.
    pub fn new(data: Vec<u8>) -> (r: Self)
        ensures
            r@ == data@,
            r.spec_pos() == 0,
            r.pos_wf(),
    {
        let size = data.len();
        let r = ReadSlice { data, start: 0, size, position: 0 };
        proof {
            assert(r@ =~= r.data@);
        }
        r
    }

    /// The declared byte length of the view.
    pub fn size(&self) -> (r: u64)
        ensures
            r == self@.len(),
    {

        proof {
            use_type_invariant(self);
        }
        self.size as u64
    }

    /// Bytes consumed so far.
    pub fn position(&self) -> (r: u64)
        ensures
            r == self.spec_pos(),
            0 <= r <= self@.len(),
    {
        proof {
            use_type_invariant(self);
        }
        self.position as u64
    }

    /// Moves the cursor to `pos`, clamped to the end of the view.
    pub fn set_position(&mut self, pos: u64)
        ensures
            final(self)@ == old(self)@,
            final(self).spec_pos() == min(pos as int, old(self)@.len() as int),
            final(self).pos_wf(),
        no_unwind
    {
        proof {
            use_type_invariant(&*self);
        }
        let p: usize = if pos >= self.size as u64 {
            self.size
        } else {
            pos as usize
        };
        self.position = p;
    }

    /// Moves the cursor back to the front of the view.
    pub fn rewind(&mut self)
        ensures
            final(self)@ == old(self)@,
            final(self).spec_pos() == 0,
            final(self).pos_wf(),
    {
        self.set_position(0);
    }

    /// A view that discards the first `offset` bytes. The cursor keeps its
    /// place relative to the surviving bytes, or rests at the new front if
    /// it pointed into the discarded part.
    pub fn offset(&self, offset: u64) -> (r: Self)
        ensures
            r@ == self@.skip(min(offset as int, self@.len() as int)),
            r.spec_pos() == (if offset as int >= self.spec_pos() {
                0int
            } else {
                self.spec_pos() - offset as int
            }),
            r.pos_wf(),
    {
        proof {
            use_type_invariant(self);
        }
        let k: usize = if offset >= self.size as u64 {
            self.size
        } else {
            offset as usize
        };
        let pos: usize = if k > self.position {
            0
        } else {
            self.position - k
        };
        let r = ReadSlice {
            data: self.data.clone(),
            start: self.start + k,
            size: self.size - k,
            position: pos,
        };
        proof {
            assert(r@ =~= self@.skip(k as int));
        }
        r
    }

    /// `offset` in place.
    pub fn offset_mut(&mut self, offset: u64)
        ensures
            final(self)@ == old(self)@.skip(min(offset as int, old(self)@.len() as int)),
            final(self).spec_pos() == (if offset as int >= old(self).spec_pos() {
                0int
            } else {
                old(self).spec_pos() - offset as int
            }),
            final(self).pos_wf(),
    {
        let r = self.offset(offset);
        *self = r;
    }

    /// A view of the first `size` bytes, clamped to the view length.
    /// The cursor is clamped to the new end.
    pub fn take(&self, size: u64) -> (r: Self)
        ensures
            r@ == self@.take(min(size as int, self@.len() as int)),
            r.spec_pos() == min(self.spec_pos(), min(size as int, self@.len() as int)),
            r.pos_wf(),
    {
        proof {
            use_type_invariant(self);
        }
        let k: usize = if size >= self.size as u64 {
            self.size
        } else {
            size as usize
        };
        let pos: usize = if self.position > k {
            k
        } else {
            self.position
        };
        let r = ReadSlice { data: self.data.clone(), start: self.start, size: k, position: pos };
        proof {
            assert(r@ =~= self@.take(k as int));
        }
        r
    }

    /// A view of the next `size` bytes after the cursor, with a fresh cursor.
    pub fn take_from_current(&self, size: u64) -> (r: Self)
        ensures
            r@ == self.remaining().take(min(size as int, self.remaining().len() as int)),
            r.spec_pos() == 0,
            r.pos_wf(),
    {
        proof {
            use_type_invariant(self);
        }
        let shifted = self.offset(self.position() );
        let r = shifted.take(size);
        proof {
            assert(shifted@ == self.remaining());
        }
        r
    }

    /// Concatenates this view with the unread part of `other`.
    /// The cursor keeps its place in the left part.
    pub fn chain(&self, other: ReadSlice) -> (r: Self)
        requires
            self@.len() + other.remaining().len() <= usize::MAX,
        ensures
            r@ == self@ + other.remaining(),
            r.spec_pos() == self.spec_pos(),
            r.pos_wf(),
    {
        proof {
            use_type_invariant(self);
            use_type_invariant(&other);
        }
        let mut out: Vec<u8> = Vec::new();
        let mut i: usize = 0;
        while i < self.size
            invariant
                i <= self.size,
                self.type_inv(),
                out@ =~= self@.take(i as int),
            decreases self.size - i,
        {
            out.push(self.data[self.start + i]);
            proof {
                assert(out@ =~= self@.take(i + 1));
            }
            i = i + 1;
        }
        let mut j: usize = other.start + other.position;
        let other_end: usize = other.start + other.size;
        while j < other_end
            invariant
                other.start + other.position <= j <= other_end,
                other_end == other.start + other.size,
                other.type_inv(),
                self@.len() + other.remaining().len() <= usize::MAX,
                out@ =~= self@ + other.remaining().take(j - (other.start + other.position)),
            decreases other_end - j,
        {
            out.push(other.data[j]);
            proof {
                assert(out@ =~= self@ + other.remaining().take(
                    j + 1 - (other.start + other.position),
                ));
            }
            j = j + 1;
        }
        let size = out.len();
        let r = ReadSlice { data: out, start: 0, size, position: self.position };
        proof {
            assert(other.remaining().take(other.remaining().len() as int) =~= other.remaining());
            assert(r@ =~= self@ + other.remaining());
        }
        r
    }

    /// Copies bytes from the cursor into the front of `buf`, stopping at the
    /// end of `buf` or of the view. Returns how many bytes were written;
    /// the rest of `buf` keeps its old contents.
    pub fn read(&mut self, buf: &mut Vec<u8>) -> (r: usize)
        ensures
            r == min(old(buf)@.len() as int, old(self).remaining().len() as int),
            final(buf)@.len() == old(buf)@.len(),
            final(buf)@ == old(self).remaining().take(r as int) + old(buf)@.skip(r as int),
            final(self)@ == old(self)@,
            final(self).spec_pos() == old(self).spec_pos() + r,
            final(self).remaining() == old(self).remaining().skip(r as int),
            final(self).pos_wf(),
    {
        proof {
            use_type_invariant(&*self);
        }
        let avail: usize = self.size - self.position;
        let n: usize = if buf.len() < avail {
            buf.len()
        } else {
            avail
        };
        let mut i: usize = 0;
        while i < n
            invariant
                i <= n,
                self.type_inv(),
                n <= old(self).remaining().len(),
                *self == *old(self),
                buf@.len() == old(buf)@.len(),
                n <= buf@.len(),
                buf@ =~= old(self).remaining().take(i as int) + old(buf)@.skip(i as int),
            decreases n - i,
        {
            let b = self.data[self.start + self.position + i];
            proof {
                assert(old(self).remaining()[i as int] == b);
            }
            buf[i] = b;
            proof {
                assert(buf@ =~= old(self).remaining().take(i + 1) + old(buf)@.skip(i + 1));
            }
            i = i + 1;
        }
        self.position = self.position + n;
        n
    }

    /// Consumes and returns everything after the cursor.
    pub fn read_remaining(&mut self) -> (r: Vec<u8>)
        ensures
            r@ == old(self).remaining(),
            final(self)@ == old(self)@,
            final(self).spec_pos() == old(self)@.len(),
            final(self).remaining().len() == 0,
            final(self).pos_wf(),
    {
        proof {
            use_type_invariant(&*self);
        }
        let mut out: Vec<u8> = Vec::new();
        let mut i: usize = self.position;
        while i < self.size
            invariant
                old(self).position <= i <= self.size,
                self.type_inv(),
                *self == *old(self),
                out@ =~= old(self).remaining().take(i - old(self).spec_pos()),
            decreases self.size - i,
        {
            out.push(self.data[self.start + i]);
            proof {
                assert(out@ =~= old(self).remaining().take(i + 1 - old(self).spec_pos()));
            }
            i = i + 1;
        }
        self.position = self.size;
        proof {
            assert(out@ =~= old(self).remaining());
        }
        out
    }
}

} // verus!
