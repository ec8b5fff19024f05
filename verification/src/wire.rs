//! The mathematical model of the wire format.
//!
//! A diff is a concatenation of blocks. Each block is a two-byte big-endian
//! action, one or two four-byte big-endian lengths, and, for the actions
//! that carry data, that many raw bytes. This module defines the model of
//! a block, its encoding, the decoder, and the interpreter that applies a
//! diff to a source, all at the specification level.

use vstd::prelude::*;
use crate::error::DiffError;
use crate::functions::{be_val, spec_u16_be, spec_u32_be, lemma_u32_be_val};

verus! {

/// The model of one diff block: what it keeps, inserts or drops.
pub enum BlockView {
    /// Keep `size` bytes of the source.
    Skip { size: nat },
    /// Insert the given bytes.
    Add { data: Seq<u8> },
    /// Drop `size` bytes of the source.
    Remove { size: nat },
    /// Drop `remove_size` source bytes and insert the given bytes.
    Replace { remove_size: nat, data: Seq<u8> },
    /// Drop as many source bytes as the given bytes and insert them.
    ReplaceWithSameLength { data: Seq<u8> },
}

/// The four big-endian bytes of a length below `2^32`.
pub open spec fn be32(n: nat) -> Seq<u8> {
    spec_u32_be(n as u32)
}

impl BlockView {
    /// Lengths fit the four-byte fields of the wire format.
    pub open spec fn wf(self) -> bool {
        match self {
            BlockView::Skip { size } => size <= u32::MAX,
            BlockView::Add { data } => data.len() <= u32::MAX,
            BlockView::Remove { size } => size <= u32::MAX,
            BlockView::Replace { remove_size, data } => remove_size <= u32::MAX && data.len()
                <= u32::MAX,
            BlockView::ReplaceWithSameLength { data } => data.len() <= u32::MAX,
        }
    }

    /// What the diff builder promises of every block it emits: no empty
    /// blocks, and a `Replace` only when the two lengths differ.
    pub open spec fn emit_wf(self) -> bool {
        match self {
            BlockView::Skip { size } => 1 <= size,
            BlockView::Add { data } => 1 <= data.len(),
            BlockView::Remove { size } => 1 <= size,
            BlockView::Replace { remove_size, data } => 1 <= remove_size && 1 <= data.len()
                && remove_size != data.len(),
            BlockView::ReplaceWithSameLength { data } => 1 <= data.len(),
        }
    }

    /// The bytes consumed from the source when the block is applied.
    pub open spec fn source_need(self) -> nat {
        match self {
            BlockView::Skip { size } => size,
            BlockView::Add { data } => 0,
            BlockView::Remove { size } => size,
            BlockView::Replace { remove_size, data } => remove_size,
            BlockView::ReplaceWithSameLength { data } => data.len(),
        }
    }

    /// The bytes the block contributes to the output when applied to a
    /// source whose next bytes are `kept`.
    pub open spec fn output_at(self, src: Seq<u8>, spos: int) -> Seq<u8> {
        match self {
            BlockView::Skip { size } => src.subrange(spos, spos + size),
            BlockView::Add { data } => data,
            BlockView::Remove { size } => Seq::empty(),
            BlockView::Replace { remove_size, data } => data,
            BlockView::ReplaceWithSameLength { data } => data,
        }
    }

    /// The wire bytes of the block.
    pub open spec fn encoding(self) -> Seq<u8> {
        match self {
            BlockView::Skip { size } => spec_u16_be(0) + be32(size),
            BlockView::Add { data } => spec_u16_be(1) + be32(data.len()) + data,
            BlockView::Remove { size } => spec_u16_be(2) + be32(size),
            BlockView::Replace { remove_size, data } => spec_u16_be(3) + be32(remove_size) + be32(
                data.len(),
            ) + data,
            BlockView::ReplaceWithSameLength { data } => spec_u16_be(4) + be32(data.len()) + data,
        }
    }
}

/// The wire bytes of a whole block sequence.
pub open spec fn encode_blocks(bs: Seq<BlockView>) -> Seq<u8>
    decreases bs.len(),
{
    if bs.len() == 0 {
        Seq::empty()
    } else {
        bs[0].encoding() + encode_blocks(bs.skip(1))
    }
}

/// One step of the decoder.
pub enum DecodeStep {
    /// A clean end: no bytes left.
    End,
    /// The stream is corrupt or truncated.
    Fail { err: DiffError },
    /// One block, and how many bytes its encoding used.
    Next { block: BlockView, used: int },
}

/// Reads one block from the front of `s`: the two-byte action, then the
/// length fields, then the data. An unknown action fails before any
/// length is read; missing bytes fail with the end-of-stream error.
pub open spec fn decode_one(s: Seq<u8>) -> DecodeStep {
    if s.len() == 0 {
        DecodeStep::End
    } else if s.len() == 1 {
        DecodeStep::Fail { err: DiffError::UnexpectedEof }
    } else {
        let op = (s[0] as nat) * 256 + (s[1] as nat);
        if op > 4 {
            DecodeStep::Fail { err: DiffError::UnknownAction }
        } else if op == 0 || op == 2 {
            if s.len() < 6 {
                DecodeStep::Fail { err: DiffError::UnexpectedEof }
            } else {
                let n = be_val(s.subrange(2, 6));
                if op == 0 {
                    DecodeStep::Next { block: BlockView::Skip { size: n }, used: 6 }
                } else {
                    DecodeStep::Next { block: BlockView::Remove { size: n }, used: 6 }
                }
            }
        } else if op == 1 || op == 4 {
            if s.len() < 6 {
                DecodeStep::Fail { err: DiffError::UnexpectedEof }
            } else {
                let n = be_val(s.subrange(2, 6));
                if s.len() < 6 + n {
                    DecodeStep::Fail { err: DiffError::UnexpectedEof }
                } else {
                    let data = s.subrange(6, 6 + n as int);
                    if op == 1 {
                        DecodeStep::Next { block: BlockView::Add { data }, used: 6 + n as int }
                    } else {
                        DecodeStep::Next {
                            block: BlockView::ReplaceWithSameLength { data },
                            used: 6 + n as int,
                        }
                    }
                }
            }
        } else {
            if s.len() < 10 {
                DecodeStep::Fail { err: DiffError::UnexpectedEof }
            } else {
                let remove_size = be_val(s.subrange(2, 6));
                let n = be_val(s.subrange(6, 10));
                if s.len() < 10 + n {
                    DecodeStep::Fail { err: DiffError::UnexpectedEof }
                } else {
                    let data = s.subrange(10, 10 + n as int);
                    DecodeStep::Next {
                        block: BlockView::Replace { remove_size, data },
                        used: 10 + n as int,
                    }
                }
            }
        }
    }
}

/// A decoded block uses at least its header and at most the whole stream,
/// and is well-formed.
pub proof fn lemma_decode_used(s: Seq<u8>)
    ensures
        decode_one(s) matches DecodeStep::Next { block, used } ==> 6 <= used <= s.len()
            && block.wf(),
{
    if decode_one(s) matches DecodeStep::Next { block, used } {
        crate::functions::lemma_be_val_bound(s.subrange(2, 6));
        crate::functions::lemma_pow256_values();
        if s.len() >= 10 {
            crate::functions::lemma_be_val_bound(s.subrange(6, 10));
        }
    }
}

/// The whole stream as a block sequence, or the first decoding error.
pub open spec fn decode_seq(s: Seq<u8>) -> Result<Seq<BlockView>, DiffError>
    decreases s.len(),
{
    match decode_one(s) {
        DecodeStep::End => Ok(Seq::empty()),
        DecodeStep::Fail { err } => Err(err),
        DecodeStep::Next { block, used } => if 0 < used <= s.len() {
            match decode_seq(s.skip(used)) {
                Ok(rest) => Ok(seq![block] + rest),
                Err(e) => Err(e),
            }
        } else {
            Err(DiffError::UnexpectedEof)
        },
    }
}

/// Applies the diff bytes to the source, starting `spos` bytes in:
/// decodes one block at a time, checks that the source holds the bytes
/// the block consumes, and concatenates the output.
pub open spec fn apply_spec(src: Seq<u8>, spos: int, diff: Seq<u8>) -> Result<Seq<u8>, DiffError>
    decreases diff.len(),
{
    match decode_one(diff) {
        DecodeStep::End => Ok(Seq::empty()),
        DecodeStep::Fail { err } => Err(err),
        DecodeStep::Next { block, used } => if spos + block.source_need() > src.len() {
            Err(DiffError::UnexpectedEof)
        } else if 0 < used <= diff.len() {
            match apply_spec(src, spos + block.source_need(), diff.skip(used)) {
                Ok(rest) => Ok(block.output_at(src, spos) + rest),
                Err(e) => Err(e),
            }
        } else {
            Err(DiffError::UnexpectedEof)
        },
    }
}

/// Decoding the encoding of a well-formed block yields the block back,
/// whatever follows it. This is the codec round trip: every emitted block
/// survives one encode-then-decode unchanged.
pub proof fn lemma_decode_encoding(b: BlockView, rest: Seq<u8>)
    requires
        b.wf(),
    ensures
        decode_one(b.encoding() + rest) == (DecodeStep::Next {
            block: b,
            used: b.encoding().len() as int,
        }),
{
    let s = b.encoding() + rest;
    match b {
        BlockView::Skip { size } => {
            lemma_u32_be_val(size as u32);
            assert(s.subrange(2, 6) =~= be32(size));
            assert((s[0] as nat) * 256 + (s[1] as nat) == 0);
        },
        BlockView::Remove { size } => {
            lemma_u32_be_val(size as u32);
            assert(s.subrange(2, 6) =~= be32(size));
            assert((s[0] as nat) * 256 + (s[1] as nat) == 2);
        },
        BlockView::Add { data } => {
            lemma_u32_be_val(data.len() as u32);
            assert(s.subrange(2, 6) =~= be32(data.len()));
            assert((s[0] as nat) * 256 + (s[1] as nat) == 1);
            assert(s.subrange(6, 6 + data.len() as int) =~= data);
        },
        BlockView::ReplaceWithSameLength { data } => {
            lemma_u32_be_val(data.len() as u32);
            assert(s.subrange(2, 6) =~= be32(data.len()));
            assert((s[0] as nat) * 256 + (s[1] as nat) == 4);
            assert(s.subrange(6, 6 + data.len() as int) =~= data);
        },
        BlockView::Replace { remove_size, data } => {
            lemma_u32_be_val(remove_size as u32);
            lemma_u32_be_val(data.len() as u32);
            assert(s.subrange(2, 6) =~= be32(remove_size));
            assert(s.subrange(6, 10) =~= be32(data.len()));
            assert((s[0] as nat) * 256 + (s[1] as nat) == 3);
            assert(s.subrange(10, 10 + data.len() as int) =~= data);
        },
    }
}

/// Applying a diff that starts with a well-formed block: if the source
/// holds what the block consumes, the block's output leads and the rest of
/// the diff continues from the advanced position; otherwise the apply
/// fails with the end-of-stream error.
pub proof fn lemma_apply_spec_step(src: Seq<u8>, spos: int, b: BlockView, rest: Seq<u8>)
    requires
        b.wf(),
    ensures
        spos + b.source_need() <= src.len() ==> apply_spec(src, spos, b.encoding() + rest)
            == (match apply_spec(src, spos + b.source_need(), rest) {
            Ok(r) => Ok::<Seq<u8>, DiffError>(b.output_at(src, spos) + r),
            Err(e) => Err(e),
        }),
        spos + b.source_need() > src.len() ==> apply_spec(src, spos, b.encoding() + rest)
            == Err::<Seq<u8>, DiffError>(DiffError::UnexpectedEof),
{
    lemma_decode_encoding(b, rest);
    let s = b.encoding() + rest;
    assert(s.skip(b.encoding().len() as int) =~= rest);
}


/// Decoding a stream that is the concatenation of well-formed block
/// encodings yields exactly those blocks.
#[verifier::rlimit(100)]
pub proof fn lemma_decode_seq_encode(bs: Seq<BlockView>)
    requires
        forall|i: int| 0 <= i < bs.len() ==> (#[trigger] bs[i]).wf(),
    ensures
        decode_seq(encode_blocks(bs)) == Ok::<Seq<BlockView>, DiffError>(bs),
    decreases bs.len(),
{
    if bs.len() == 0 {
        assert(encode_blocks(bs).len() == 0);
        assert(bs =~= Seq::<BlockView>::empty());
    } else {
        let s = encode_blocks(bs);
        let rest = encode_blocks(bs.skip(1));
        lemma_decode_encoding(bs[0], rest);
        assert(s == bs[0].encoding() + rest);
        assert(s.skip(bs[0].encoding().len() as int) =~= rest);
        assert forall|i: int| 0 <= i < bs.skip(1).len() implies (#[trigger] bs.skip(1)[i]).wf() by {
            assert(bs.skip(1)[i] == bs[i + 1]);
        }
        lemma_decode_seq_encode(bs.skip(1));
        assert(bs[0].encoding().len() >= 6);
        let used = bs[0].encoding().len() as int;
        assert(decode_one(s) == (DecodeStep::Next { block: bs[0], used }));
        assert(decode_seq(s.skip(used)) == Ok::<Seq<BlockView>, DiffError>(bs.skip(1)));
        assert(seq![bs[0]] + bs.skip(1) =~= bs);
        assert(decode_seq(s) == Ok::<Seq<BlockView>, DiffError>(seq![bs[0]] + bs.skip(1)));
    }
}


/// Opcode validation: a diff whose leading two-byte action lies outside
/// the known range fails to apply with the corruption error, whatever
/// the source holds and wherever it stands.
pub proof fn lemma_apply_unknown_action(src: Seq<u8>, spos: int, diff: Seq<u8>)
    requires
        diff.len() >= 2,
        (diff[0] as nat) * 256 + (diff[1] as nat) > 4,
    ensures
        apply_spec(src, spos, diff) == Err::<Seq<u8>, DiffError>(DiffError::UnknownAction),
{
}

/// Truncation: a diff cut off in the middle of a block fails to apply
/// with the end-of-stream error. Any nonempty strict prefix of a
/// well-formed block's encoding is rejected, whatever the source.
pub proof fn lemma_apply_truncated(src: Seq<u8>, spos: int, b: BlockView, p: Seq<u8>)
    requires
        b.wf(),
        1 <= p.len() < b.encoding().len(),
        p == b.encoding().take(p.len() as int),
    ensures
        apply_spec(src, spos, p) == Err::<Seq<u8>, DiffError>(DiffError::UnexpectedEof),
{
    let e = b.encoding();
    if p.len() >= 2 {
        match b {
            BlockView::Skip { size } => {
                assert((p[0] as nat) * 256 + (p[1] as nat) == 0);
            },
            BlockView::Remove { size } => {
                assert((p[0] as nat) * 256 + (p[1] as nat) == 2);
            },
            BlockView::Add { data } => {
                assert((p[0] as nat) * 256 + (p[1] as nat) == 1);
                if p.len() >= 6 {
                    lemma_u32_be_val(data.len() as u32);
                    assert(p.subrange(2, 6) =~= be32(data.len()));
                }
            },
            BlockView::ReplaceWithSameLength { data } => {
                assert((p[0] as nat) * 256 + (p[1] as nat) == 4);
                if p.len() >= 6 {
                    lemma_u32_be_val(data.len() as u32);
                    assert(p.subrange(2, 6) =~= be32(data.len()));
                }
            },
            BlockView::Replace { remove_size, data } => {
                assert((p[0] as nat) * 256 + (p[1] as nat) == 3);
                if p.len() >= 10 {
                    lemma_u32_be_val(data.len() as u32);
                    assert(p.subrange(6, 10) =~= be32(data.len()));
                }
            },
        }
    }
}


/// Concatenating block encodings distributes over the leading block.
pub proof fn lemma_encode_cons(b: BlockView, t: Seq<BlockView>)
    ensures
        encode_blocks(seq![b] + t) == b.encoding() + encode_blocks(t),
{
    assert((seq![b] + t)[0] == b);
    assert((seq![b] + t).skip(1) =~= t);
}

} // verus!
