//! Walking the leaves of an index and hashing each line's bytes.

use vstd::prelude::*;
use vstd::slice::{slice_subrange, slice_to_vec};
use crate::functions::{compute_hash, digest_of};
use crate::indexes::{leaves_of, EntryView, Indexes};

verus! {

/// One hashed line: label, start, size, digest.
pub type HashedLine = (String, u64, u64, String);

/// Yields the leaves of an index in order, each with the digest of its
/// bytes. Built over the whole file contents and its index; every leaf
/// is checked to lie inside the file when the iterator is built.
pub struct LinesWithHashIterator {
    file: Vec<u8>,
    lines: Vec<(String, u64, u64)>,
    pos: usize,
}

impl LinesWithHashIterator {
    /// The bytes of the underlying file.
    pub closed spec fn file_view(&self) -> Seq<u8> {
        self.file@
    }

    /// The leaves being walked: label, start, size.
    pub closed spec fn leaves(&self) -> Seq<EntryView> {
        self.lines@.map_values(|e: (String, u64, u64)| (e.0@, e.1, e.2))
    }

    /// How many leaves have been yielded.
    pub closed spec fn spec_pos(&self) -> int {
        self.pos as int
    }

    #[verifier::type_invariant]
    spec fn type_inv(self) -> bool {
        forall|i: int|
            0 <= i < self.lines@.len() ==> (#[trigger] self.lines@[i]).1 + self.lines@[i].2
                <= self.file@.len()
    }

    /// Builds the iterator: derives the leaves of the index and checks
    /// that each lies inside the file. A leaf reaching past the end of
    /// the file is reported as an error.
    pub fn new(file: Vec<u8>, index: Indexes) -> (r: Result<Self, String>)
        ensures
            (forall|i: int|
                0 <= i < leaves_of(index@).len() ==> (#[trigger] leaves_of(index@)[i]).1
                    + leaves_of(index@)[i].2 <= file@.len()) <==> r is Ok,
            r matches Ok(it) ==> {
                &&& it.file_view() == file@
                &&& it.leaves() == leaves_of(index@)
                &&& it.spec_pos() == 0
            },
    {
        let ghost goal = leaves_of(index@);
        let mut index = index;
        let mut ends = index.get_ends();
        let n = ends.len();
        let mut lines: Vec<(String, u64, u64)> = Vec::new();
        let mut i: usize = 0;
        while i < n
            invariant
                i <= n,
                n == goal.len(),
                ends@ == goal,
                ends.spec_pos() == i,
                lines@.map_values(|e: (String, u64, u64)| (e.0@, e.1, e.2)) == goal.take(i as int),
                lines@.len() == i,
                forall|j: int|
                    0 <= j < i ==> (#[trigger] lines@[j]).1 + lines@[j].2 <= file@.len(),
                forall|j: int| 0 <= j < i ==> (#[trigger] goal[j]).1 + goal[j].2 <= file@.len(),
            decreases n - i,
        {
            let ghost pre = lines@.map_values(|e: (String, u64, u64)| (e.0@, e.1, e.2));
            match ends.next() {
                Some(entry) => {
                    if entry.1 > file.len() as u64 || entry.2 > file.len() as u64 - entry.1 {
                        proof {
                            assert(goal[i as int].1 + goal[i as int].2 > file@.len());
                        }
                        return Err("line reaches past the end of the file".to_owned());
                    }
                    lines.push(entry);
                    proof {
                        assert(lines@.map_values(|e: (String, u64, u64)| (e.0@, e.1, e.2)) =~= pre
                            + seq![goal[i as int]]);
                        assert(pre + seq![goal[i as int]] =~= goal.take(i + 1));
                    }
                },
                None => {
                    proof {
                        assert(false);
                    }
                },
            }
            i = i + 1;
        }
        proof {
            assert(goal.take(n as int) =~= goal);
        }
        Ok(LinesWithHashIterator { file, lines, pos: 0 })
    }

    /// Hands the file bytes back.
    pub fn get_read(self) -> (r: Vec<u8>)
        ensures
            r@ == self.file_view(),
    {
        self.file
    }

    /// The next leaf with the digest of its bytes, or `None` when all
    /// leaves have been yielded.
    pub fn next_line(&mut self) -> (r: Option<HashedLine>)
        ensures
            final(self).file_view() == old(self).file_view(),
            final(self).leaves() == old(self).leaves(),
            old(self).spec_pos() >= old(self).leaves().len() ==> r is None
                && final(self).spec_pos() == old(self).spec_pos(),
            0 <= old(self).spec_pos() < old(self).leaves().len() ==> {
                &&& final(self).spec_pos() == old(self).spec_pos() + 1
                &&& r matches Some(line)
                &&& {
                    let e = old(self).leaves()[old(self).spec_pos()];
                    &&& line.0@ == e.0
                    &&& line.1 == e.1
                    &&& line.2 == e.2
                    &&& line.3@ == digest_of(
                        old(self).file_view().subrange(e.1 as int, e.1 + e.2),
                    )
                    &&& line.3@.len() == 64
                    &&& forall|k: int|
                        0 <= k < line.3@.len() ==> crate::functions::is_hex_char(
                            #[trigger] line.3@[k],
                        )
                }
            },
    {
        proof {
            use_type_invariant(&*self);
        }
        if self.pos >= self.lines.len() {
            return None;
        }
        let label = self.lines[self.pos].0.clone();
        let start = self.lines[self.pos].1;
        let size = self.lines[self.pos].2;
        let flen = self.file.len();
        proof {
            assert(self.lines@[self.pos as int].1 + self.lines@[self.pos as int].2
                <= self.file@.len());
            assert(start + size <= flen);
        }
        let chunk = slice_to_vec(
            slice_subrange(self.file.as_slice(), start as usize, (start + size) as usize),
        );
        proof {
            assert(chunk@ =~= self.file@.subrange(start as int, start + size));
        }
        let hash = compute_hash(&chunk);
        self.pos = self.pos + 1;
        Some((label, start, size, hash))
    }
}

} // verus!
