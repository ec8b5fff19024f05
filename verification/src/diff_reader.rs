//! A reader that hands out diff blocks one at a time.
//!
//! The reader either decodes blocks from a byte stream or shifts them off
//! a vector of already-decoded blocks. Decoding is verified against the
//! wire model's `decode_one` and `decode_seq`.

use vstd::prelude::*;
use crate::diff_block::DiffBlock;
use crate::error::DiffError;
use crate::functions::{be_val, read_n, vec_to_u32_be};
use crate::readslice::ReadSlice;
use crate::wire::{decode_one, decode_seq, lemma_decode_used, BlockView, DecodeStep};

verus! {

/// Where the blocks come from.
enum ReaderSource {
    /// Wire bytes still to be decoded.
    Stream(ReadSlice),
    /// Blocks already in memory.
    Blocks(Vec<DiffBlock>),
}

/// Hands out the blocks of one diff, in order.
pub struct DiffReader {
    input: ReaderSource,
}

impl DiffReader {
    /// Whether the reader decodes a byte stream.
    pub closed spec fn is_stream(&self) -> bool {
        self.input is Stream
    }

    /// The undecoded bytes of a stream reader.
    pub closed spec fn source_rem(&self) -> Seq<u8> {
        match self.input {
            ReaderSource::Stream(s) => s.remaining(),
            ReaderSource::Blocks(_) => Seq::empty(),
        }
    }

    /// The models of the pending blocks of a vector reader.
    pub closed spec fn pending(&self) -> Seq<BlockView> {
        match self.input {
            ReaderSource::Stream(_) => Seq::empty(),
            ReaderSource::Blocks(v) => v@.map_values(|b: DiffBlock| b@),
        }
    }

    /// Every pending block of a vector reader is well-formed.
    pub closed spec fn pending_wf(&self) -> bool {
        match self.input {
            ReaderSource::Stream(_) => true,
            ReaderSource::Blocks(v) => forall|i: int| 0 <= i < v@.len() ==> v@[i].wf(),
        }
    }

    /// A reader over wire bytes.
    pub fn new(input: ReadSlice) -> (r: Self)
        ensures
            r.is_stream(),
            r.source_rem() == input.remaining(),
            r.pending_wf(),
    {
        DiffReader { input: ReaderSource::Stream(input) }
    }

    /// A reader over blocks already decoded or built in memory.
    pub fn new_from_vector(input: Vec<DiffBlock>) -> (r: Self)
        ensures
            !r.is_stream(),
            r.pending() == input@.map_values(|b: DiffBlock| b@),
            r.pending_wf() <==> (forall|i: int| 0 <= i < input@.len() ==> input@[i].wf()),
    {
        DiffReader { input: ReaderSource::Blocks(input) }
    }

    /// The next block, `None` at a clean end of the stream. Decoding
    /// fails on an unknown action or on bytes missing mid-block.
    pub fn next(&mut self) -> (r: Result<Option<DiffBlock>, DiffError>)
        ensures
            final(self).is_stream() == old(self).is_stream(),
            old(self).is_stream() ==> match decode_one(old(self).source_rem()) {
                DecodeStep::End => r matches Ok(o) && o is None && final(self).source_rem()
                    == old(self).source_rem(),
                DecodeStep::Fail { err } => r == Err::<Option<DiffBlock>, DiffError>(err),
                DecodeStep::Next { block, used } => {
                    &&& r matches Ok(o)
                    &&& o matches Some(b) && b@ == block && b.wf()
                    &&& final(self).source_rem() == old(self).source_rem().skip(used)
                },
            },
            !old(self).is_stream() ==> {
                &&& (old(self).pending_wf() ==> final(self).pending_wf())
                &&& (old(self).pending().len() == 0 ==> (r matches Ok(o) && o is None)
                    && final(self).pending() == old(self).pending())
                &&& (old(self).pending().len() > 0 ==> {
                    &&& (r matches Ok(o) && o matches Some(b) && b@ == old(self).pending()[0]
                        && (old(self).pending_wf() ==> b.wf()))
                    &&& final(self).pending() == old(self).pending().skip(1)
                })
            },
    {
        match &mut self.input {
            ReaderSource::Stream(input) => {
                let ghost s = input.remaining();
                let avail = input.size() - input.position();
                if avail == 0 {
                    return Ok(None);
                }
                let mut head: Vec<u8> = vec![0u8; 2];
                if let Err(e) = read_n(input, &mut head, 2) {
                    return Err(e);
                }
                let action = vec_to_u32_be(head.as_slice());
                proof {
                    reveal_with_fuel(be_val, 3);
                    assert(head@ =~= s.take(2));
                    assert(s.take(2).drop_last() =~= seq![s[0]]);
                    assert(seq![s[0]].drop_last() =~= Seq::<u8>::empty());
                    assert(action == (s[0] as nat) * 256 + (s[1] as nat));
                }
                if action > 4 {
                    return Err(DiffError::UnknownAction);
                }
                let mut lenb: Vec<u8> = vec![0u8; 4];
                if let Err(e) = read_n(input, &mut lenb, 4) {
                    return Err(e);
                }
                let size = vec_to_u32_be(lenb.as_slice());
                proof {
                    assert(lenb@ =~= s.skip(2).take(4));
                    assert(s.skip(2).take(4) =~= s.subrange(2, 6));
                }
                if action == 0 {
                    proof {
                        assert(input.remaining() =~= s.skip(6));
                    }
                    return Ok(Some(DiffBlock::Skip { size }));
                }
                if action == 2 {
                    proof {
                        assert(input.remaining() =~= s.skip(6));
                    }
                    return Ok(Some(DiffBlock::Remove { size }));
                }
                if action == 1 || action == 4 {
                    proof {
                        assert(input.remaining() =~= s.skip(6));
                    }
                    let avail2 = input.size() - input.position();
                    if avail2 < size as u64 {
                        return Err(DiffError::UnexpectedEof);
                    }
                    let data = input.take_from_current(size as u64);
                    let pos = input.position();
                    input.set_position(pos + size as u64);
                    proof {
                        assert(data@ =~= s.subrange(6, 6 + size as int));
                        assert(input.remaining() =~= s.skip(6 + size as int));
                    }
                    if action == 1 {
                        return Ok(Some(DiffBlock::Add { data }));
                    }
                    return Ok(Some(DiffBlock::ReplaceWithSameLength { data }));
                }
                let mut lenb2: Vec<u8> = vec![0u8; 4];
                if let Err(e) = read_n(input, &mut lenb2, 4) {
                    return Err(e);
                }
                let size2 = vec_to_u32_be(lenb2.as_slice());
                proof {
                    assert(lenb2@ =~= s.skip(6).take(4));
                    assert(s.skip(6).take(4) =~= s.subrange(6, 10));
                }
                proof {
                    assert(input.remaining() =~= s.skip(10));
                }
                let avail2 = input.size() - input.position();
                if avail2 < size2 as u64 {
                    return Err(DiffError::UnexpectedEof);
                }
                let data = input.take_from_current(size2 as u64);
                let pos = input.position();
                input.set_position(pos + size2 as u64);
                proof {
                    assert(data@ =~= s.subrange(10, 10 + size2 as int));
                    assert(input.remaining() =~= s.skip(10 + size2 as int));
                }
                Ok(Some(DiffBlock::Replace { remove_size: size, data }))
            },
            ReaderSource::Blocks(input) => {
                let ghost pre = input@;
                let ghost prewf = forall|j: int| 0 <= j < pre.len() ==> (#[trigger] pre[j]).wf();
                let r = crate::functions::vec_shift(input);
                proof {
                    if pre.len() > 0 {
                        assert(input@ =~= pre.skip(1));
                        assert(input@.map_values(|b: DiffBlock| b@) =~= pre.map_values(
                            |b: DiffBlock| b@,
                        ).skip(1));
                        if prewf {
                            assert forall|j: int| 0 <= j < input@.len() implies (#[trigger] input@[j]).wf() by {
                                assert(input@[j] == pre[j + 1]);
                            }
                        }
                    }
                }
                Ok(r)
            },
        }
    }

    /// Reads every remaining block. For a stream this decodes the whole
    /// tail, or reports its first error; for a vector it empties it.
    pub fn consume(&mut self) -> (r: Result<Vec<DiffBlock>, DiffError>)
        ensures
            old(self).is_stream() ==> match decode_seq(old(self).source_rem()) {
                Ok(bs) => r matches Ok(v) && v@.map_values(|b: DiffBlock| b@) == bs && (forall|
                    i: int,
                | 0 <= i < v@.len() ==> (#[trigger] v@[i]).wf()),
                Err(e) => r == Err::<Vec<DiffBlock>, DiffError>(e),
            },
            !old(self).is_stream() ==> {
                &&& r matches Ok(v)
                &&& v@.map_values(|b: DiffBlock| b@) == old(self).pending()
                &&& (old(self).pending_wf() ==> forall|i: int|
                    0 <= i < v@.len() ==> (#[trigger] v@[i]).wf())
            },
    {
        let mut out: Vec<DiffBlock> = Vec::new();
        let ghost stream = old(self).is_stream();
        loop
            invariant
                self.is_stream() == stream,
                stream ==> decode_seq(old(self).source_rem()) == (match decode_seq(
                    self.source_rem(),
                ) {
                    Ok(rest) => Ok::<Seq<BlockView>, DiffError>(
                        out@.map_values(|b: DiffBlock| b@) + rest,
                    ),
                    Err(e) => Err::<Seq<BlockView>, DiffError>(e),
                }),
                !stream ==> old(self).pending() == out@.map_values(|b: DiffBlock| b@)
                    + self.pending(),
                !stream ==> (old(self).pending_wf() ==> self.pending_wf()),
                (stream || old(self).pending_wf()) ==> forall|i: int|
                    0 <= i < out@.len() ==> (#[trigger] out@[i]).wf(),
            decreases (if stream {
                self.source_rem().len()
            } else {
                self.pending().len()
            }),
        {
            let ghost pre_rem = self.source_rem();
            let ghost pre_pending = self.pending();
            proof {
                lemma_decode_used(pre_rem);
            }
            match self.next() {
                Err(e) => {
                    return Err(e);
                },
                Ok(None) => {
                    proof {
                        assert(out@.map_values(|b: DiffBlock| b@) + Seq::<BlockView>::empty()
                            =~= out@.map_values(|b: DiffBlock| b@));
                    }
                    return Ok(out);
                },
                Ok(Some(block)) => {
                    let ghost bv = block@;
                    let ghost prev = out@.map_values(|b: DiffBlock| b@);
                    out.push(block);
                    proof {
                        assert(out@.map_values(|b: DiffBlock| b@) =~= prev + seq![bv]);
                        if stream {
                            match decode_seq(self.source_rem()) {
                                Ok(rest) => {
                                    assert(prev + (seq![bv] + rest) =~= (prev + seq![bv]) + rest);
                                },
                                Err(_) => {},
                            }
                        } else {
                            assert(pre_pending.skip(1) =~= self.pending());
                        }
                    }
                },
            }
        }
    }
}

} // verus!
