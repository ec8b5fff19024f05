//! Creating, applying and combining diffs.
//!
//! `create_diff` turns two indexed files into wire bytes; `apply_diff`
//! interprets wire bytes against a source; the combine functions compose
//! two or more diffs into one without materialising intermediate files.

use vstd::prelude::*;
use vstd::slice::slice_subrange;
use crate::bytes_serializer::{BytesSerializer, IntoBytesSerializer};
use crate::diff_block::DiffBlock;
use crate::diff_iterator::{digest_seq, dst_lines, join_nl, leaf_sizes, n32views, slice_at, spec_process_diff, spec_process_diff_2, split_text, src_lines, Change, DiffIterator};
use crate::diff_block::DiffBlockN;
use crate::diff_reader::DiffReader;
use crate::error::DiffError;
use crate::functions::{be_val, vec_to_u32_be};
use crate::indexes::{Indexes, WithIndexes};
use crate::readslice::ReadSlice;
use crate::wire::{apply_spec, decode_one, encode_blocks, BlockView, DecodeStep};

verus! {

/// Reads the four-byte big-endian length at `p`.
fn read_u32_at(v: &Vec<u8>, p: usize) -> (r: u32)
    requires
        p + 4 <= v@.len(),
    ensures
        r == be_val(v@.subrange(p as int, p + 4)),
{
    let total = v.len();
    proof {
        assert(p + 4 <= total);
    }
    let s = slice_subrange(v.as_slice(), p, p + 4);
    vec_to_u32_be(s)
}

/// Applies a diff to a source file, both given as byte buffers, and
/// returns the rebuilt output. The result is exactly what the wire
/// model's interpreter says: a clean end of the diff terminates the
/// output, an action outside the known range fails with the corruption
/// error, and a diff or source that runs dry mid-block fails with the
/// end-of-stream error.
#[verifier::rlimit(100)]
pub fn apply_diff(file: &Vec<u8>, diff: &Vec<u8>) -> (r: Result<Vec<u8>, DiffError>)
    ensures
        r matches Ok(out) ==> apply_spec(file@, 0, diff@) == Ok::<Seq<u8>, DiffError>(out@),
        r matches Err(e) ==> apply_spec(file@, 0, diff@) == Err::<Seq<u8>, DiffError>(e),
{
    let slen = file.len();
    let dlen = diff.len();
    let mut out: Vec<u8> = Vec::new();
    let mut spos: usize = 0;
    let mut dpos: usize = 0;
    proof {
        assert(diff@.skip(0) =~= diff@);
    }
    loop
        invariant
            spos <= slen,
            dpos <= dlen,
            slen == file@.len(),
            dlen == diff@.len(),
            apply_spec(file@, 0, diff@) == (match apply_spec(
                file@,
                spos as int,
                diff@.skip(dpos as int),
            ) {
                Ok(rest) => Ok::<Seq<u8>, DiffError>(out@ + rest),
                Err(e) => Err::<Seq<u8>, DiffError>(e),
            }),
        decreases dlen - dpos,
    {
        let ghost rem = diff@.skip(dpos as int);
        if dpos == dlen {
            proof {
                assert(out@ + Seq::<u8>::empty() =~= out@);
            }
            return Ok(out);
        }
        if dlen - dpos == 1 {
            return Err(DiffError::UnexpectedEof);
        }
        proof {
            assert(rem[0] == diff@[dpos as int]);
            assert(rem[1] == diff@[dpos + 1]);
        }
        let op: u32 = (diff[dpos] as u32) * 256 + (diff[dpos + 1] as u32);
        if op > 4 {
            return Err(DiffError::UnknownAction);
        }
        if op == 0 || op == 2 {
            if dlen - dpos < 6 {
                return Err(DiffError::UnexpectedEof);
            }
            let n = read_u32_at(diff, dpos + 2);
            proof {
                assert(diff@.subrange(dpos + 2, dpos + 6) =~= rem.subrange(2, 6));
            }
            if n as u64 > (slen - spos) as u64 {
                return Err(DiffError::UnexpectedEof);
            }
            let ghost pre_out = out@;
            let ghost pre_spos = spos as int;
            if op == 0 {
                let piece = slice_subrange(file.as_slice(), spos, spos + n as usize);
                out.extend_from_slice(piece);
                proof {
                    assert(out@ =~= pre_out + file@.subrange(spos as int, spos + n));
                }
            }
            spos = spos + n as usize;
            dpos = dpos + 6;
            proof {
                assert(diff@.skip(dpos as int) =~= rem.skip(6));
                let ghost bout: Seq<u8> = if op == 0 {
                    file@.subrange(pre_spos, pre_spos + n)
                } else {
                    Seq::empty()
                };
                assert(apply_spec(file@, pre_spos, rem) == (match apply_spec(
                    file@,
                    spos as int,
                    diff@.skip(dpos as int),
                ) {
                    Ok(rest) => Ok::<Seq<u8>, DiffError>(bout + rest),
                    Err(e) => Err::<Seq<u8>, DiffError>(e),
                }));
                match apply_spec(file@, spos as int, diff@.skip(dpos as int)) {
                    Ok(rest) => {
                        assert(pre_out + (bout + rest) =~= out@ + rest);
                    },
                    Err(_) => {},
                }
            }
        } else if op == 1 || op == 4 {
            if dlen - dpos < 6 {
                return Err(DiffError::UnexpectedEof);
            }
            let n = read_u32_at(diff, dpos + 2);
            proof {
                assert(diff@.subrange(dpos + 2, dpos + 6) =~= rem.subrange(2, 6));
            }
            if n as u64 > (dlen - (dpos + 6)) as u64 {
                return Err(DiffError::UnexpectedEof);
            }
            if op == 4 {
                if n as u64 > (slen - spos) as u64 {
                    return Err(DiffError::UnexpectedEof);
                }
                spos = spos + n as usize;
            }
            let ghost pre_out = out@;
            let piece = slice_subrange(diff.as_slice(), dpos + 6, dpos + 6 + n as usize);
            out.extend_from_slice(piece);
            proof {
                assert(diff@.subrange(dpos + 6, dpos + 6 + n as int) =~= rem.subrange(
                    6,
                    6 + n as int,
                ));
            }
            dpos = dpos + 6 + n as usize;
            proof {
                assert(diff@.skip(dpos as int) =~= rem.skip(6 + n as int));
                let ghost bout = rem.subrange(6, 6 + n as int);
                assert(out@ =~= pre_out + bout);
                assert(apply_spec(file@, (if op == 4 { spos - n } else { spos as int }), rem)
                    == (match apply_spec(file@, spos as int, diff@.skip(dpos as int)) {
                    Ok(rest) => Ok::<Seq<u8>, DiffError>(bout + rest),
                    Err(e) => Err::<Seq<u8>, DiffError>(e),
                }));
                match apply_spec(file@, spos as int, diff@.skip(dpos as int)) {
                    Ok(rest) => {
                        assert(pre_out + (bout + rest) =~= out@ + rest);
                    },
                    Err(_) => {},
                }
            }
        } else {
            if dlen - dpos < 10 {
                return Err(DiffError::UnexpectedEof);
            }
            let remove = read_u32_at(diff, dpos + 2);
            let add = read_u32_at(diff, dpos + 6);
            proof {
                assert(diff@.subrange(dpos + 2, dpos + 6) =~= rem.subrange(2, 6));
                assert(diff@.subrange(dpos + 6, dpos + 10) =~= rem.subrange(6, 10));
            }
            if add as u64 > (dlen - (dpos + 10)) as u64 {
                return Err(DiffError::UnexpectedEof);
            }
            if remove as u64 > (slen - spos) as u64 {
                return Err(DiffError::UnexpectedEof);
            }
            let ghost pre_out = out@;
            let ghost pre_spos = spos as int;
            spos = spos + remove as usize;
            let piece = slice_subrange(diff.as_slice(), dpos + 10, dpos + 10 + add as usize);
            out.extend_from_slice(piece);
            proof {
                assert(diff@.subrange(dpos + 10, dpos + 10 + add as int) =~= rem.subrange(
                    10,
                    10 + add as int,
                ));
            }
            dpos = dpos + 10 + add as usize;
            proof {
                assert(diff@.skip(dpos as int) =~= rem.skip(10 + add as int));
                let ghost bout = rem.subrange(10, 10 + add as int);
                assert(out@ =~= pre_out + bout);
                assert(apply_spec(file@, pre_spos, rem) == (match apply_spec(
                    file@,
                    spos as int,
                    diff@.skip(dpos as int),
                ) {
                    Ok(rest) => Ok::<Seq<u8>, DiffError>(bout + rest),
                    Err(e) => Err::<Seq<u8>, DiffError>(e),
                }));
                match apply_spec(file@, spos as int, diff@.skip(dpos as int)) {
                    Ok(rest) => {
                        assert(pre_out + (bout + rest) =~= out@ + rest);
                    },
                    Err(_) => {},
                }
            }
        }
    }
}


/// The block a script entry materialises at offset `fp` of the edited
/// file, and the offset afterwards.
pub open spec fn materialize_step(b: DiffBlockN<u32>, file: Seq<u8>, fp: int) -> (BlockView, int) {
    match b {
        DiffBlockN::Skip(n) => (
            BlockView::Skip { size: n as nat },
            vstd::math::min(fp + n, file.len() as int),
        ),
        DiffBlockN::Add(n) => (
            BlockView::Add { data: slice_at(file, fp, n as int) },
            vstd::math::min(fp + n, file.len() as int),
        ),
        DiffBlockN::Remove(n) => (BlockView::Remove { size: n as nat }, fp),
        DiffBlockN::Replace(rm, ad) => (
            BlockView::Replace { remove_size: rm as nat, data: slice_at(file, fp, ad as int) },
            vstd::math::min(fp + ad, file.len() as int),
        ),
        DiffBlockN::ReplaceWithSameLength(n) => (
            BlockView::ReplaceWithSameLength { data: slice_at(file, fp, n as int) },
            vstd::math::min(fp + n, file.len() as int),
        ),
    }
}

/// The blocks a whole script materialises, reading data from the edited
/// file left to right.
pub open spec fn materialize(script: Seq<DiffBlockN<u32>>, file: Seq<u8>, fp: int) -> Seq<
    BlockView,
>
    decreases script.len(),
{
    if script.len() == 0 {
        Seq::empty()
    } else {
        let (bv, fp2) = materialize_step(script[0], file, fp);
        seq![bv] + materialize(script.skip(1), file, fp2)
    }
}

/// Every materialised block fits the wire format.
pub proof fn lemma_materialize_wf(script: Seq<DiffBlockN<u32>>, file: Seq<u8>, fp: int)
    ensures
        forall|i: int|
            0 <= i < materialize(script, file, fp).len() ==> (#[trigger] materialize(
                script,
                file,
                fp,
            )[i]).wf(),
    decreases script.len(),
{
    if script.len() > 0 {
        let (bv, fp2) = materialize_step(script[0], file, fp);
        lemma_materialize_wf(script.skip(1), file, fp2);
        assert forall|i: int| 0 <= i < materialize(script, file, fp).len() implies (
        #[trigger] materialize(script, file, fp)[i]).wf() by {
            if i == 0 {
                assert(materialize(script, file, fp)[0] == bv);
                assert(bv.wf());
            } else {
                assert(materialize(script, file, fp)[i] == materialize(script.skip(1), file, fp2)[i
                    - 1]);
            }
        }
    }
}

/// A keep-only script materialises to keep-only blocks.
proof fn lemma_materialize_skip_only(script: Seq<DiffBlockN<u32>>, file: Seq<u8>, fp: int)
    requires
        forall|i: int| 0 <= i < script.len() ==> (#[trigger] script[i]) is Skip,
    ensures
        forall|i: int|
            0 <= i < materialize(script, file, fp).len() ==> (#[trigger] materialize(
                script,
                file,
                fp,
            )[i]) is Skip,
    decreases script.len(),
{
    if script.len() > 0 {
        let stepped = materialize_step(script[0], file, fp);
        let tail = script.skip(1);
        assert(forall|i: int| 0 <= i < tail.len() ==> tail[i] == #[trigger] script[i + 1]);
        lemma_materialize_skip_only(tail, file, stepped.1);
        assert forall|i: int|
            0 <= i < materialize(script, file, fp).len() implies (#[trigger] materialize(
            script,
            file,
            fp,
        )[i]) is Skip by {
            if i == 0 {
                assert(materialize(script, file, fp)[0] == stepped.0);
            } else {
                assert(materialize(script, file, fp)[i] == materialize(tail, file, stepped.1)[i
                    - 1]);
            }
        }
    }
}

/// Creates the diff of two files given as bytes with their indexes, and
/// returns the wire bytes. The output is the encoding of the block
/// stream obtained by hashing the leaves of both files, diffing the
/// digests line by line, translating the change runs to byte counts over
/// the leaf sizes, and attaching the added bytes of the edited file.
/// Encodes every remaining block of the iterator, in order.
#[verifier::rlimit(100)]
fn encode_all(dit: &mut DiffIterator) -> (out: Vec<u8>)
    requires
        0 <= old(dit).spec_pos() <= old(dit).blocks().len(),
    ensures
        out@ == encode_blocks(
            materialize(
                old(dit).blocks().skip(old(dit).spec_pos()),
                old(dit).file_view(),
                old(dit).spec_file_pos(),
            ),
        ),
{
    let ghost fb = dit.file_view();
    let ghost script = dit.blocks();
    let ghost pos0 = dit.spec_pos();
    let ghost fp0 = dit.spec_file_pos();
    let mut out: Vec<u8> = Vec::new();
    loop
        invariant
            dit.file_view() == fb,
            dit.blocks() == script,
            pos0 <= dit.spec_pos() <= script.len(),
            encode_blocks(materialize(script.skip(pos0), fb, fp0)) == out@ + encode_blocks(
                materialize(script.skip(dit.spec_pos()), fb, dit.spec_file_pos()),
            ),
        decreases script.len() - dit.spec_pos(),
    {
        let ghost pos = dit.spec_pos();
        let ghost fp = dit.spec_file_pos();
        match dit.next_ref() {
            None => {
                proof {
                    assert(materialize(script.skip(pos), fb, fp) =~= Seq::<BlockView>::empty());
                    assert(out@ + Seq::<u8>::empty() =~= out@);
                }
                return out;
            },
            Some(block) => {
                let ghost bv = block@;
                let ghost pre_out = out@;
                let mut ser = block.into_bytes();
                let mut piece = ser.read_remaining();
                proof {
                    assert(piece@ =~= bv.encoding());
                }
                out.append(&mut piece);
                proof {
                    let stepped = materialize_step(script[pos], fb, fp);
                    assert(script.skip(pos)[0] == script[pos]);
                    assert(bv == stepped.0);
                    assert(dit.spec_file_pos() == stepped.1);
                    assert(script.skip(pos).skip(1) =~= script.skip(pos + 1));
                    assert(out@ =~= pre_out + bv.encoding());
                    let m = materialize(script.skip(pos), fb, fp);
                    assert(m == seq![bv] + materialize(script.skip(pos + 1), fb, stepped.1));
                    assert(m[0] == bv);
                    assert(m.skip(1) =~= materialize(script.skip(pos + 1), fb, stepped.1));
                    assert(encode_blocks(materialize(script.skip(pos), fb, fp)) == bv.encoding()
                        + encode_blocks(materialize(script.skip(pos + 1), fb, stepped.1)));
                    assert(pre_out + (bv.encoding() + encode_blocks(
                        materialize(script.skip(pos + 1), fb, stepped.1),
                    )) =~= out@ + encode_blocks(materialize(script.skip(pos + 1), fb, stepped.1)));
                }
            },
        }
    }
}

/// Creates the diff of two files given as bytes with their indexes, and
/// returns the wire bytes. The output is the encoding of the block
/// stream obtained by hashing the leaves of both files, diffing the
/// digests line by line, translating the change runs to byte counts over
/// the leaf sizes, and attaching the added bytes of the edited file.
/// It succeeds exactly when every leaf of each index lies inside its
/// file and each file's leaf sizes together fit the wire format's
/// four-byte field; otherwise it fails with the single creation error.
/// The emitted blocks conserve the source side: their skip, remove and
/// replace-remove sizes sum to the total leaf size of the first file.
#[verifier::rlimit(100)]
pub fn create_diff_from_parts(
    file_a: Vec<u8>,
    index_a: Indexes,
    file_b: Vec<u8>,
    index_b: Indexes,
) -> (r: Result<Vec<u8>, DiffError>)
    ensures
        r is Ok <==> {
            &&& crate::diff_iterator::leaves_in_bounds(file_a@, index_a@)
            &&& crate::diff_iterator::leaves_in_bounds(file_b@, index_b@)
            &&& crate::diff_iterator::leaf_sizes_fit(index_a@)
            &&& crate::diff_iterator::leaf_sizes_fit(index_b@)
        },
        r matches Err(e) ==> e == DiffError::CreateFailed,
        r matches Ok(out) ==> exists|cs: Seq<Change>, script: Seq<DiffBlockN<u32>>|
            {
                &&& src_lines(cs) == split_text(
                    join_nl(digest_seq(file_a@, crate::indexes::leaves_of(index_a@))),
                )
                &&& dst_lines(cs) == split_text(
                    join_nl(digest_seq(file_b@, crate::indexes::leaves_of(index_b@))),
                )
                &&& crate::diff_iterator::aligned_runs(
                    cs,
                    digest_seq(file_a@, crate::indexes::leaves_of(index_a@)),
                    digest_seq(file_b@, crate::indexes::leaves_of(index_b@)),
                    0,
                    0,
                )
                &&& n32views(script) == spec_process_diff_2(
                    spec_process_diff(cs),
                    leaf_sizes(crate::indexes::leaves_of(index_a@)),
                    leaf_sizes(crate::indexes::leaves_of(index_b@)),
                    0,
                    0,
                )
                &&& crate::diff_iterator::script_a_weight(n32views(script))
                    == crate::diff_iterator::sum_range(
                    leaf_sizes(crate::indexes::leaves_of(index_a@)),
                    0,
                    crate::indexes::leaves_of(index_a@).len() as int,
                )
                &&& out@ == encode_blocks(materialize(script, file_b@, 0))
            },
        r matches Ok(out) ==> exists|bs: Seq<BlockView>|
            {
                &&& (forall|i: int| 0 <= i < bs.len() ==> (#[trigger] bs[i]).wf())
                &&& out@ == encode_blocks(bs)
                &&& crate::wire::decode_seq(out@) == Ok::<Seq<BlockView>, DiffError>(bs)
                &&& (digest_seq(file_a@, crate::indexes::leaves_of(index_a@)) == digest_seq(
                    file_b@,
                    crate::indexes::leaves_of(index_b@),
                ) ==> forall|i: int| 0 <= i < bs.len() ==> (#[trigger] bs[i]) is Skip)
            },
{
    let ghost fa = file_a@;
    let ghost fb = file_b@;
    let mut dit = match DiffIterator::new(file_a, index_a, file_b, index_b) {
        Ok(d) => d,
        Err(_) => {
            return Err(DiffError::CreateFailed);
        },
    };
    let ghost script = dit.blocks();
    let out = encode_all(&mut dit);
    proof {
        assert(script.skip(0) =~= script);
        lemma_materialize_wf(script, fb, 0);
        crate::wire::lemma_decode_seq_encode(materialize(script, fb, 0));
        if digest_seq(fa, crate::indexes::leaves_of(index_a@)) == digest_seq(
            fb,
            crate::indexes::leaves_of(index_b@),
        ) {
            lemma_materialize_skip_only(script, fb, 0);
        }
    }
    Ok(out)
}

/// Creates and returns the diff of two indexed binaries. The adapters
/// supply their bytes and indexes; a failing adapter, a leaf past its
/// file, or leaf sizes beyond the wire format's field are all reported
/// as the single creation error, and that is the only error this
/// function returns. On success the output is a well-formed wire
/// stream: it decodes back to the block sequence it encodes.
pub fn create_diff<T: WithIndexes, U: WithIndexes>(original: &mut T, edited: &mut U) -> (r: Result<
    Vec<u8>,
    DiffError,
>)
    ensures
        r matches Err(e) ==> e == DiffError::CreateFailed,
        r matches Ok(out) ==> exists|bs: Seq<BlockView>|
            {
                &&& (forall|i: int| 0 <= i < bs.len() ==> (#[trigger] bs[i]).wf())
                &&& out@ == encode_blocks(bs)
                &&& crate::wire::decode_seq(out@) == Ok::<Seq<BlockView>, DiffError>(bs)
            },
{
    let data_a = original.get_data();
    let index_a = match original.get_indexes() {
        Ok(i) => i,
        Err(_) => {
            return Err(DiffError::CreateFailed);
        },
    };
    let data_b = edited.get_data();
    let index_b = match edited.get_indexes() {
        Ok(i) => i,
        Err(_) => {
            return Err(DiffError::CreateFailed);
        },
    };
    create_diff_from_parts(data_a, index_a, data_b, index_b)
}


/// The measure that shrinks at every composition step: pending blocks
/// that can still split count double.
pub open spec fn rank(b: Option<BlockView>) -> int {
    match b {
        None => 0,
        Some(BlockView::Replace { .. }) => 2,
        Some(BlockView::ReplaceWithSameLength { .. }) => 2,
        Some(_) => 1,
    }
}

/// The views of a list of blocks.
pub open spec fn block_views(v: Seq<DiffBlock>) -> Seq<BlockView> {
    v.map_values(|b: DiffBlock| b@)
}

/// The first phase of the combine: compose the two diffs' block streams
/// pairwise, refilling each side as its current block is consumed, and
/// forwarding whatever one side still has when the other is exhausted.
pub open spec fn spec_phase1(
    da: Option<BlockView>,
    db: Option<BlockView>,
    ra: Seq<BlockView>,
    rb: Seq<BlockView>,
) -> Seq<BlockView>
    decreases ra.len() + rb.len(), rank(da) + rank(db),
    via spec_phase1_decreases
{
    if da is None && ra.len() > 0 {
        spec_phase1(Some(ra[0]), db, ra.skip(1), rb)
    } else if db is None && rb.len() > 0 {
        spec_phase1(da, Some(rb[0]), ra, rb.skip(1))
    } else {
        match (da, db) {
            (None, None) => Seq::empty(),
            (Some(x), None) => seq![x] + spec_phase1(None, None, ra, rb),
            (None, Some(y)) => seq![y] + spec_phase1(None, None, ra, rb),
            (Some(x), Some(y)) => {
                let (o, xr, yr) = crate::diff_block::spec_compose(x, y);
                (match o {
                    Some(b) => seq![b],
                    None => Seq::empty(),
                }) + spec_phase1(xr, yr, ra, rb)
            },
        }
    }
}

#[via_fn]
proof fn spec_phase1_decreases(
    da: Option<BlockView>,
    db: Option<BlockView>,
    ra: Seq<BlockView>,
    rb: Seq<BlockView>,
) {
    reveal_with_fuel(crate::diff_block::spec_compose, 3);
}

/// One compression pass: fold the current block into the next with the
/// sum operator, emitting it when no merge applies. Returns the folded
/// list and whether any merge happened.
pub open spec fn spec_pass(acc: BlockView, s: Seq<BlockView>) -> (Seq<BlockView>, bool)
    decreases s.len(),
{
    if s.len() == 0 {
        (seq![acc], false)
    } else {
        let (m, rem) = crate::diff_block::spec_plus(acc, s[0]);
        match rem {
            None => {
                let t = spec_pass(m, s.skip(1));
                (t.0, true)
            },
            Some(_) => {
                let t = spec_pass(s[0], s.skip(1));
                (seq![acc] + t.0, t.1)
            },
        }
    }
}

/// A pass never lengthens the list, and shortens it when it merged.
pub proof fn lemma_pass_len(acc: BlockView, s: Seq<BlockView>)
    ensures
        spec_pass(acc, s).0.len() <= s.len() + 1,
        spec_pass(acc, s).1 ==> spec_pass(acc, s).0.len() <= s.len(),
    decreases s.len(),
{
    if s.len() > 0 {
        let (m, rem) = crate::diff_block::spec_plus(acc, s[0]);
        lemma_pass_len(m, s.skip(1));
        lemma_pass_len(s[0], s.skip(1));
    }
}

/// The second phase of the combine: repeat compression passes until one
/// completes without a merge.
pub open spec fn spec_compress(s: Seq<BlockView>) -> Seq<BlockView>
    decreases s.len(),
    via spec_compress_decreases
{
    if s.len() <= 1 {
        s
    } else {
        let t = spec_pass(s[0], s.skip(1));
        if t.1 {
            spec_compress(t.0)
        } else {
            t.0
        }
    }
}

#[via_fn]
proof fn spec_compress_decreases(s: Seq<BlockView>) {
    if s.len() > 1 {
        lemma_pass_len(s[0], s.skip(1));
    }
}

/// The whole combine: compose transitively, then compress.
pub open spec fn spec_combine(sa: Seq<BlockView>, sb: Seq<BlockView>) -> Seq<BlockView> {
    spec_compress(spec_phase1(None, None, sa, sb))
}

/// The blocks a reader will hand out, or its first error.
pub open spec fn reader_blocks(r: DiffReader) -> Result<Seq<BlockView>, DiffError> {
    if r.is_stream() {
        crate::wire::decode_seq(r.source_rem())
    } else {
        Ok(r.pending())
    }
}


/// Composes the blocks of two sequential diffs into the blocks of one.
/// The two phases of the combine run in order: the transitive composition
/// of the two streams, then sum-compression to a fixpoint.
fn combine_diffs_to_vec(blocksa: DiffReader, blocksb: DiffReader) -> (r: Result<
    Vec<DiffBlock>,
    DiffError,
>)
    requires
        blocksa.pending_wf(),
        blocksb.pending_wf(),
    ensures
        (reader_blocks(blocksa) is Ok && reader_blocks(blocksb) is Ok) ==> {
            &&& r matches Ok(v)
            &&& block_views(v@) == spec_combine(
                reader_blocks(blocksa)->Ok_0,
                reader_blocks(blocksb)->Ok_0,
            )
            &&& forall|i: int| 0 <= i < r->Ok_0@.len() ==> (#[trigger] r->Ok_0@[i]).wf()
        },
        reader_blocks(blocksa) matches Err(e) ==> r == Err::<Vec<DiffBlock>, DiffError>(e),
        reader_blocks(blocksa) is Ok ==> (reader_blocks(blocksb) matches Err(e) ==> r == Err::<
            Vec<DiffBlock>,
            DiffError,
        >(e)),
{
    let mut ra_reader = blocksa;
    let mut rb_reader = blocksb;
    let va = match ra_reader.consume() {
        Ok(v) => v,
        Err(e) => {
            return Err(e);
        },
    };
    let vb = match rb_reader.consume() {
        Ok(v) => v,
        Err(e) => {
            return Err(e);
        },
    };
    let composed = compose_blocks(va, vb);
    compress_blocks(composed)
}

/// The first phase of the combine: composes the two block lists
/// pairwise, refilling each side as its current block is consumed.
#[verifier::rlimit(100)]
fn compose_blocks(blocksa: Vec<DiffBlock>, blocksb: Vec<DiffBlock>) -> (out: Vec<DiffBlock>)
    requires
        forall|i: int| 0 <= i < blocksa@.len() ==> (#[trigger] blocksa@[i]).wf(),
        forall|i: int| 0 <= i < blocksb@.len() ==> (#[trigger] blocksb@[i]).wf(),
    ensures
        block_views(out@) == spec_phase1(None, None, block_views(blocksa@), block_views(blocksb@)),
        forall|i: int| 0 <= i < out@.len() ==> (#[trigger] out@[i]).wf(),
{
    let mut va = blocksa;
    let mut vb = blocksb;
    let ghost sa = block_views(va@);
    let ghost sb = block_views(vb@);
    let mut out: Vec<DiffBlock> = Vec::new();
    let mut da: Option<DiffBlock> = None;
    let mut db: Option<DiffBlock> = None;
    proof {
        assert(block_views(out@) =~= Seq::<BlockView>::empty());
        assert(Seq::<BlockView>::empty() + spec_phase1(None, None, sa, sb) =~= spec_phase1(
            None,
            None,
            sa,
            sb,
        ));
    }
    loop
        invariant
            opt_block_wf(da),
            opt_block_wf(db),
            forall|i: int| 0 <= i < va@.len() ==> (#[trigger] va@[i]).wf(),
            forall|i: int| 0 <= i < vb@.len() ==> (#[trigger] vb@[i]).wf(),
            forall|i: int| 0 <= i < out@.len() ==> (#[trigger] out@[i]).wf(),
            spec_phase1(None, None, sa, sb) == block_views(out@) + spec_phase1(
                opt_bv(da),
                opt_bv(db),
                block_views(va@),
                block_views(vb@),
            ),
        decreases 3 * (va@.len() + vb@.len()) + rank(opt_bv(da)) + rank(opt_bv(db)) + 1,
    {
        proof {
            reveal_with_fuel(spec_phase1, 4);
            reveal_with_fuel(crate::diff_block::spec_compose, 3);
        }
        let ghost pre_da = opt_bv(da);
        let ghost pre_va = block_views(va@);
        if da.is_none() {
            da = crate::functions::vec_shift(&mut va);
            proof {
                if pre_va.len() > 0 {
                    assert(block_views(va@) =~= pre_va.skip(1));
                    assert(opt_bv(da) == Some(pre_va[0]));
                }
            }
        }
        let ghost pre_db = opt_bv(db);
        let ghost pre_vb = block_views(vb@);
        if db.is_none() {
            db = crate::functions::vec_shift(&mut vb);
            proof {
                if pre_vb.len() > 0 {
                    assert(block_views(vb@) =~= pre_vb.skip(1));
                    assert(opt_bv(db) == Some(pre_vb[0]));
                }
            }
        }
        let x = da;
        let y = db;
        da = None;
        db = None;
        let ghost xv = opt_bv(x);
        let ghost yv = opt_bv(y);
        let ghost mid = spec_phase1(xv, yv, block_views(va@), block_views(vb@));
        match (x, y) {
            (None, None) => {
                proof {
                    assert(block_views(out@) + Seq::<BlockView>::empty() =~= block_views(out@));
                }
                break ;
            },
            (Some(xb), None) => {
                let ghost pre_out = block_views(out@);
                out.push(xb);
                proof {
                    assert(block_views(out@) =~= pre_out + seq![xv->0]);
                    assert(pre_out + (seq![xv->0] + spec_phase1(
                        None,
                        None,
                        block_views(va@),
                        block_views(vb@),
                    )) =~= block_views(out@) + spec_phase1(
                        None,
                        None,
                        block_views(va@),
                        block_views(vb@),
                    ));
                }
            },
            (None, Some(yb)) => {
                let ghost pre_out = block_views(out@);
                out.push(yb);
                proof {
                    assert(block_views(out@) =~= pre_out + seq![yv->0]);
                    assert(pre_out + (seq![yv->0] + spec_phase1(
                        None,
                        None,
                        block_views(va@),
                        block_views(vb@),
                    )) =~= block_views(out@) + spec_phase1(
                        None,
                        None,
                        block_views(va@),
                        block_views(vb@),
                    ));
                }
            },
            (Some(xb), Some(yb)) => {
                let ghost pre_out = block_views(out@);
                let composed = xb.diff(yb);
                let o = composed.0;
                da = composed.1;
                db = composed.2;
                match o {
                    Some(b) => {
                        out.push(b);
                        proof {
                            assert(block_views(out@) =~= pre_out + seq![b@]);
                            assert(pre_out + (seq![b@] + spec_phase1(
                                opt_bv(da),
                                opt_bv(db),
                                block_views(va@),
                                block_views(vb@),
                            )) =~= block_views(out@) + spec_phase1(
                                opt_bv(da),
                                opt_bv(db),
                                block_views(va@),
                                block_views(vb@),
                            ));
                        }
                    },
                    None => {
                        proof {
                            assert(pre_out + (Seq::<BlockView>::empty() + spec_phase1(
                                opt_bv(da),
                                opt_bv(db),
                                block_views(va@),
                                block_views(vb@),
                            )) =~= block_views(out@) + spec_phase1(
                                opt_bv(da),
                                opt_bv(db),
                                block_views(va@),
                                block_views(vb@),
                            ));
                        }
                    },
                }
            },
        }
    }
    out
}

/// Whether an optional block is well-formed.
pub open spec fn opt_block_wf(b: Option<DiffBlock>) -> bool {
    match b {
        Some(x) => x.wf(),
        None => true,
    }
}

/// The view of an optional block.
pub open spec fn opt_bv(b: Option<DiffBlock>) -> Option<BlockView> {
    match b {
        Some(x) => Some(x@),
        None => None,
    }
}

/// Runs compression passes over the block list until a pass makes no
/// merge.
#[verifier::rlimit(100)]
fn compress_blocks(blocks: Vec<DiffBlock>) -> (r: Result<Vec<DiffBlock>, DiffError>)
    requires
        forall|i: int| 0 <= i < blocks@.len() ==> (#[trigger] blocks@[i]).wf(),
    ensures
        r matches Ok(v),
        block_views(r->Ok_0@) == spec_compress(block_views(blocks@)),
        forall|i: int| 0 <= i < r->Ok_0@.len() ==> (#[trigger] r->Ok_0@[i]).wf(),
{
    let ghost initial = block_views(blocks@);
    let mut out = blocks;
    loop
        invariant
            forall|i: int| 0 <= i < out@.len() ==> (#[trigger] out@[i]).wf(),
            spec_compress(initial) == spec_compress(block_views(out@)),
        decreases out@.len(),
    {
        if out.len() <= 1 {
            return Ok(out);
        }
        let ghost curv = block_views(out@);
        let ghost goal_pass = spec_pass(curv[0], curv.skip(1));
        let mut rest = out;
        let first = rest.remove(0);
        proof {
            assert(block_views(rest@) =~= curv.skip(1));
        }
        let mut acc = first;
        let mut processed: Vec<DiffBlock> = Vec::new();
        let mut merged = false;
        proof {
            assert(block_views(processed@) =~= Seq::<BlockView>::empty());
        }
        loop
            invariant
                acc.wf(),
                forall|i: int| 0 <= i < rest@.len() ==> (#[trigger] rest@[i]).wf(),
                forall|i: int| 0 <= i < processed@.len() ==> (#[trigger] processed@[i]).wf(),
                goal_pass == spec_pass(curv[0], curv.skip(1)),
                goal_pass.0 == block_views(processed@) + spec_pass(acc@, block_views(rest@)).0,
                goal_pass.1 == (merged || spec_pass(acc@, block_views(rest@)).1),
            decreases rest@.len(),
        {
            let ghost pre_rest = block_views(rest@);
            match crate::functions::vec_shift(&mut rest) {
                None => {
                    break ;
                },
                Some(nxt) => {
                    proof {
                        assert(block_views(rest@) =~= pre_rest.skip(1));
                        assert(pre_rest[0] == nxt@);
                    }
                    let ghost pre_acc = acc@;
                    let folded = acc.plus(nxt);
                    match folded.1 {
                        None => {
                            acc = folded.0;
                            merged = true;
                        },
                        Some(y) => {
                            let ghost pre_proc = block_views(processed@);
                            processed.push(folded.0);
                            acc = y;
                            proof {
                                assert(block_views(processed@) =~= pre_proc + seq![pre_acc]);
                                assert(pre_proc + (seq![pre_acc] + spec_pass(
                                    acc@,
                                    block_views(rest@),
                                ).0) =~= block_views(processed@) + spec_pass(
                                    acc@,
                                    block_views(rest@),
                                ).0);
                            }
                        },
                    }
                },
            }
        }
        let ghost pre_proc = block_views(processed@);
        processed.push(acc);
        proof {
            assert(block_views(rest@) =~= Seq::<BlockView>::empty());
            assert(block_views(processed@) =~= pre_proc + seq![acc@]);
            assert(goal_pass.0 =~= block_views(processed@));
            lemma_pass_len(curv[0], curv.skip(1));
        }
        if !merged {
            return Ok(processed);
        }
        out = processed;
    }
}


/// Encodes a list of blocks to wire bytes.
fn encode_block_vec(blocks: Vec<DiffBlock>) -> (out: Vec<u8>)
    requires
        forall|i: int| 0 <= i < blocks@.len() ==> (#[trigger] blocks@[i]).wf(),
    ensures
        out@ == encode_blocks(block_views(blocks@)),
{
    let ghost goal = block_views(blocks@);
    let mut rest = blocks;
    let mut out: Vec<u8> = Vec::new();
    proof {
        assert(Seq::<u8>::empty() + encode_blocks(goal) =~= encode_blocks(goal));
    }
    loop
        invariant
            forall|i: int| 0 <= i < rest@.len() ==> (#[trigger] rest@[i]).wf(),
            encode_blocks(goal) == out@ + encode_blocks(block_views(rest@)),
        decreases rest@.len(),
    {
        let ghost pre_rest = block_views(rest@);
        match crate::functions::vec_shift(&mut rest) {
            None => {
                proof {
                    assert(encode_blocks(block_views(rest@)) =~= Seq::<u8>::empty());
                    assert(out@ + Seq::<u8>::empty() =~= out@);
                }
                return out;
            },
            Some(b) => {
                let ghost bv = b@;
                let ghost pre_out = out@;
                let mut ser = b.into_bytes();
                let mut piece = ser.read_remaining();
                proof {
                    assert(piece@ =~= bv.encoding());
                }
                out.append(&mut piece);
                proof {
                    assert(block_views(rest@) =~= pre_rest.skip(1));
                    assert(pre_rest[0] == bv);
                    assert(out@ =~= pre_out + bv.encoding());
                    assert(pre_out + (bv.encoding() + encode_blocks(pre_rest.skip(1))) =~= out@
                        + encode_blocks(block_views(rest@)));
                }
            },
        }
    }
}

/// Combines two sequential diffs, given as wire bytes, into the wire
/// bytes of one diff with the same effect. The result is the encoding of
/// the composed and compressed block stream; a diff that does not decode
/// reports its first error, the first diff's error taking precedence.
pub fn combine_diffs(blocksa: Vec<u8>, blocksb: Vec<u8>) -> (r: Result<Vec<u8>, DiffError>)
    ensures
        (crate::wire::decode_seq(blocksa@) is Ok && crate::wire::decode_seq(blocksb@) is Ok)
            ==> (r matches Ok(out) && out@ == encode_blocks(
            spec_combine(
                crate::wire::decode_seq(blocksa@)->Ok_0,
                crate::wire::decode_seq(blocksb@)->Ok_0,
            ),
        )),
        crate::wire::decode_seq(blocksa@) matches Err(e) ==> r == Err::<Vec<u8>, DiffError>(e),
        crate::wire::decode_seq(blocksa@) is Ok ==> (crate::wire::decode_seq(blocksb@) matches Err(
            e,
        ) ==> r == Err::<Vec<u8>, DiffError>(e)),
{
    let sla = ReadSlice::new(blocksa);
    let ra = DiffReader::new(sla);
    let slb = ReadSlice::new(blocksb);
    let rb = DiffReader::new(slb);
    proof {
        assert(ra.source_rem() =~= blocksa@);
        assert(rb.source_rem() =~= blocksb@);
    }
    let blocks = match combine_diffs_to_vec(ra, rb) {
        Ok(v) => v,
        Err(e) => {
            return Err(e);
        },
    };
    Ok(encode_block_vec(blocks))
}

/// Folding a list of decoded diffs with the pairwise combine, left to
/// right; fewer than two diffs is invalid input.
pub open spec fn spec_combine_fold(acc: Seq<BlockView>, ds: Seq<Seq<u8>>) -> Result<
    Seq<BlockView>,
    DiffError,
>
    decreases ds.len(),
{
    if ds.len() == 0 {
        Ok(acc)
    } else {
        match crate::wire::decode_seq(ds[0]) {
            Err(e) => Err(e),
            Ok(s) => spec_combine_fold(spec_combine(acc, s), ds.skip(1)),
        }
    }
}

/// The combined blocks of a whole list of diffs.
pub open spec fn spec_combine_vec(ds: Seq<Seq<u8>>) -> Result<Seq<BlockView>, DiffError> {
    if ds.len() < 2 {
        Err(DiffError::InvalidInput)
    } else {
        match crate::wire::decode_seq(ds[0]) {
            Err(e) => Err(e),
            Ok(s0) => spec_combine_fold(s0, ds.skip(1)),
        }
    }
}

/// The byte views of a list of diffs.
pub open spec fn diff_views(ds: Seq<Vec<u8>>) -> Seq<Seq<u8>> {
    ds.map_values(|v: Vec<u8>| v@)
}

/// Combines a list of diffs into one block list, consuming the list.
fn combine_diffs_vec_to_vec(diffs: &mut Vec<Vec<u8>>) -> (r: Result<Vec<DiffBlock>, DiffError>)
    ensures
        spec_combine_vec(diff_views(old(diffs)@)) matches Err(e) ==> r == Err::<
            Vec<DiffBlock>,
            DiffError,
        >(e),
        spec_combine_vec(diff_views(old(diffs)@)) matches Ok(bs) ==> {
            &&& r matches Ok(v)
            &&& block_views(v@) == bs
            &&& forall|i: int| 0 <= i < r->Ok_0@.len() ==> (#[trigger] r->Ok_0@[i]).wf()
            &&& final(diffs)@.len() == 0
        },
{
    let ghost ds = diff_views(diffs@);
    if diffs.len() < 2 {
        return Err(DiffError::InvalidInput);
    }
    let d0 = diffs.remove(0);
    let d1 = diffs.remove(0);
    proof {
        assert(diff_views(diffs@) =~= ds.skip(2));
        assert(ds.skip(1)[0] == d1@);
        assert(ds.skip(1).skip(1) =~= ds.skip(2));
    }
    let sla = ReadSlice::new(d0);
    let ra = DiffReader::new(sla);
    let slb = ReadSlice::new(d1);
    let rb = DiffReader::new(slb);
    proof {
        assert(ra.source_rem() =~= ds[0]);
        assert(rb.source_rem() =~= ds.skip(1)[0]);
    }
    let mut out = match combine_diffs_to_vec(ra, rb) {
        Ok(v) => v,
        Err(e) => {
            return Err(e);
        },
    };
    loop
        invariant
            forall|i: int| 0 <= i < out@.len() ==> (#[trigger] out@[i]).wf(),
            spec_combine_vec(ds) == spec_combine_fold(block_views(out@), diff_views(diffs@)),
        decreases diffs@.len(),
    {
        let ghost pre_ds = diff_views(diffs@);
        match crate::functions::vec_shift(diffs) {
            None => {
                return Ok(out);
            },
            Some(d) => {
                proof {
                    assert(diff_views(diffs@) =~= pre_ds.skip(1));
                    assert(pre_ds[0] == d@);
                }
                let ba = DiffReader::new_from_vector(out);
                let slb2 = ReadSlice::new(d);
                let bb = DiffReader::new(slb2);
                proof {
                    assert(bb.source_rem() =~= pre_ds[0]);
                }
                out = match combine_diffs_to_vec(ba, bb) {
                    Ok(v) => v,
                    Err(e) => {
                        return Err(e);
                    },
                };
            },
        }
    }
}

/// Combines a list of diffs into per-block byte streams, so callers can
/// forward lightweight readers instead of one large buffer.
pub fn combine_diffs_vec_to_read_vec(diffs: &mut Vec<Vec<u8>>) -> (r: Result<
    Vec<BytesSerializer>,
    DiffError,
>)
    ensures
        spec_combine_vec(diff_views(old(diffs)@)) matches Err(e) ==> r == Err::<
            Vec<BytesSerializer>,
            DiffError,
        >(e),
        spec_combine_vec(diff_views(old(diffs)@)) matches Ok(bs) ==> {
            &&& r matches Ok(v)
            &&& v@.len() == bs.len()
            &&& forall|i: int|
                0 <= i < v@.len() ==> (#[trigger] v@[i])@ == bs[i].encoding() && v@[i].spec_pos()
                    == 0
            &&& final(diffs)@.len() == 0
        },
{
    let ghost goal = spec_combine_vec(diff_views(diffs@));
    let blocks = match combine_diffs_vec_to_vec(diffs) {
        Ok(v) => v,
        Err(e) => {
            return Err(e);
        },
    };
    let ghost bvs = block_views(blocks@);
    let mut rest = blocks;
    let mut reads: Vec<BytesSerializer> = Vec::new();
    loop
        invariant
            forall|i: int| 0 <= i < rest@.len() ==> (#[trigger] rest@[i]).wf(),
            reads@.len() + rest@.len() == bvs.len(),
            forall|i: int|
                0 <= i < reads@.len() ==> (#[trigger] reads@[i])@ == bvs[i].encoding()
                    && reads@[i].spec_pos() == 0,
            forall|i: int| 0 <= i < rest@.len() ==> (#[trigger] rest@[i])@ == bvs[reads@.len() + i],
        decreases rest@.len(),
    {
        let ghost pre_rest = rest@;
        match crate::functions::vec_shift(&mut rest) {
            None => {
                return Ok(reads);
            },
            Some(b) => {
                proof {
                    assert(pre_rest[0] == b);
                    assert(rest@ =~= pre_rest.skip(1));
                }
                reads.push(b.into_bytes());
            },
        }
    }
}

/// Combines a list of two or more diffs into the wire bytes of one,
/// consuming the list.
pub fn combine_diffs_vec(diffs: &mut Vec<Vec<u8>>) -> (r: Result<Vec<u8>, DiffError>)
    ensures
        spec_combine_vec(diff_views(old(diffs)@)) matches Err(e) ==> r == Err::<
            Vec<u8>,
            DiffError,
        >(e),
        spec_combine_vec(diff_views(old(diffs)@)) matches Ok(bs) ==> (r matches Ok(out) && out@
            == encode_blocks(bs) && final(diffs)@.len() == 0),
{
    let blocks = match combine_diffs_vec_to_vec(diffs) {
        Ok(v) => v,
        Err(e) => {
            return Err(e);
        },
    };
    Ok(encode_block_vec(blocks))
}


/// Two blocks that together consume and produce what one merged block
/// does can be applied as one, whatever follows.
proof fn lemma_apply_two_as_one(src: Seq<u8>, spos: int, x: BlockView, y: BlockView, m: BlockView, rest: Seq<u8>)
    requires
        x.wf(),
        y.wf(),
        m.wf(),
        0 <= spos,
        m.source_need() == x.source_need() + y.source_need(),
        spos + x.source_need() + y.source_need() <= src.len() ==> m.output_at(src, spos)
            == x.output_at(src, spos) + y.output_at(src, spos + x.source_need()),
    ensures
        apply_spec(src, spos, m.encoding() + rest) == apply_spec(
            src,
            spos,
            x.encoding() + (y.encoding() + rest),
        ),
{
    crate::wire::lemma_apply_spec_step(src, spos, m, rest);
    crate::wire::lemma_apply_spec_step(src, spos, x, y.encoding() + rest);
    let mid = spos + x.source_need();
    crate::wire::lemma_apply_spec_step(src, mid, y, rest);
    let fin = mid + y.source_need();
    if fin <= src.len() {
        match apply_spec(src, fin, rest) {
            Ok(r) => {
                assert((x.output_at(src, spos) + y.output_at(src, mid)) + r =~= x.output_at(
                    src,
                    spos,
                ) + (y.output_at(src, mid) + r));
            },
            Err(_) => {},
        }
    }
}

/// The merged block of a pair whose left side removes source bytes.
#[verifier::rlimit(100)]
proof fn lemma_plus_merge_remove(src: Seq<u8>, spos: int, x: BlockView, y: BlockView, rest: Seq<u8>)
    requires
        x.wf(),
        y.wf(),
        0 <= spos,
        x is Remove,
        crate::diff_block::spec_plus(x, y).1 is None,
    ensures
        crate::diff_block::spec_plus(x, y).0.wf(),
        apply_spec(src, spos, crate::diff_block::spec_plus(x, y).0.encoding() + rest)
            == apply_spec(src, spos, x.encoding() + (y.encoding() + rest)),
{
    let m = crate::diff_block::spec_plus(x, y).0;
    match (x, y) {
        (BlockView::Remove { size: a }, BlockView::Add { data }) => {
            assert(Seq::<u8>::empty() + data =~= data);
            lemma_apply_two_as_one(src, spos, x, y, m, rest);
        },
        (BlockView::Remove { size: a }, BlockView::Remove { size: b }) => {
            assert(Seq::<u8>::empty() + Seq::<u8>::empty() =~= Seq::<u8>::empty());
            lemma_apply_two_as_one(src, spos, x, y, m, rest);
        },
        (BlockView::Remove { size: a }, BlockView::Replace { remove_size: b, data }) => {
            assert(Seq::<u8>::empty() + data =~= data);
            lemma_apply_two_as_one(src, spos, x, y, m, rest);
        },
        (BlockView::Remove { size: a }, BlockView::ReplaceWithSameLength { data }) => {
            assert(Seq::<u8>::empty() + data =~= data);
            lemma_apply_two_as_one(src, spos, x, y, m, rest);
        },
        _ => {},
    }
}

/// The merged block of any other merging pair.
#[verifier::rlimit(100)]
proof fn lemma_plus_merge_grow(src: Seq<u8>, spos: int, x: BlockView, y: BlockView, rest: Seq<u8>)
    requires
        x.wf(),
        y.wf(),
        0 <= spos,
        !(x is Remove),
        crate::diff_block::spec_plus(x, y).1 is None,
    ensures
        crate::diff_block::spec_plus(x, y).0.wf(),
        apply_spec(src, spos, crate::diff_block::spec_plus(x, y).0.encoding() + rest)
            == apply_spec(src, spos, x.encoding() + (y.encoding() + rest)),
{
    let m = crate::diff_block::spec_plus(x, y).0;
    let mid = spos + x.source_need();
    match (x, y) {
        (BlockView::Skip { size: a }, BlockView::Skip { size: b }) => {
            if spos + a + b <= src.len() {
                assert(src.subrange(spos, spos + a) + src.subrange(mid, mid + b) =~= src.subrange(
                    spos,
                    spos + a + b,
                ));
            }
            lemma_apply_two_as_one(src, spos, x, y, m, rest);
        },
        (BlockView::Add { data: d1 }, BlockView::Add { data: d2 }) => {
            lemma_apply_two_as_one(src, spos, x, y, m, rest);
        },
        (BlockView::Replace { remove_size, data: d1 }, BlockView::Add { data: d2 }) => {
            lemma_apply_two_as_one(src, spos, x, y, m, rest);
        },
        (BlockView::ReplaceWithSameLength { data: d1 }, BlockView::Add { data: d2 }) => {
            lemma_apply_two_as_one(src, spos, x, y, m, rest);
        },
        _ => {},
    }
}

/// Merging two adjacent blocks with the sum operator preserves what the
/// diff does: when the blocks merge, applying the merged block's
/// encoding equals applying the two one after the other, whatever the
/// source, the position and the bytes that follow. When they do not
/// merge, the pair is returned unchanged.
#[verifier::rlimit(100)]
pub proof fn lemma_plus_preserves_apply(
    src: Seq<u8>,
    spos: int,
    x: BlockView,
    y: BlockView,
    rest: Seq<u8>,
)
    requires
        x.wf(),
        y.wf(),
        0 <= spos,
    ensures
        ({
            let (m, rem) = crate::diff_block::spec_plus(x, y);
            match rem {
                None => m.wf() && apply_spec(src, spos, m.encoding() + rest) == apply_spec(
                    src,
                    spos,
                    x.encoding() + (y.encoding() + rest),
                ),
                Some(yy) => m == x && yy == y,
            }
        }),
{
    if crate::diff_block::spec_plus(x, y).1 is None {
        if x is Remove {
            lemma_plus_merge_remove(src, spos, x, y, rest);
        } else {
            lemma_plus_merge_grow(src, spos, x, y, rest);
        }
    }
}

/// Every block of a list is well-formed.
pub open spec fn views_wf(s: Seq<BlockView>) -> bool {
    forall|i: int| 0 <= i < s.len() ==> (#[trigger] s[i]).wf()
}

/// One compression pass preserves what the diff does: applying the
/// folded blocks equals applying the original run.
#[verifier::rlimit(100)]
proof fn lemma_pass_preserves_apply(src: Seq<u8>, spos: int, acc: BlockView, s: Seq<BlockView>)
    requires
        0 <= spos,
        acc.wf(),
        views_wf(s),
    ensures
        views_wf(spec_pass(acc, s).0),
        apply_spec(src, spos, encode_blocks(spec_pass(acc, s).0)) == apply_spec(
            src,
            spos,
            encode_blocks(seq![acc] + s),
        ),
    decreases s.len(),
{
    if s.len() == 0 {
        assert(seq![acc] + s =~= seq![acc]);
        assert forall|i: int| 0 <= i < spec_pass(acc, s).0.len() implies (#[trigger] spec_pass(
            acc,
            s,
        ).0[i]).wf() by {
            assert(spec_pass(acc, s).0[i] == acc);
        }
    } else {
        let tail = s.skip(1);
        assert(views_wf(tail)) by {
            assert forall|i: int| 0 <= i < tail.len() implies (#[trigger] tail[i]).wf() by {
                assert(tail[i] == s[i + 1]);
            }
        }
        assert(s[0].wf());
        let (m, rem) = crate::diff_block::spec_plus(acc, s[0]);
        let rest = encode_blocks(tail);
        crate::wire::lemma_encode_cons(acc, s);
        assert(seq![s[0]] + tail =~= s);
        crate::wire::lemma_encode_cons(s[0], tail);
        lemma_plus_preserves_apply(src, spos, acc, s[0], rest);
        match rem {
            None => {
                lemma_pass_preserves_apply(src, spos, m, tail);
                crate::wire::lemma_encode_cons(m, tail);
                assert(encode_blocks(seq![acc] + s) == acc.encoding() + (s[0].encoding() + rest));
            },
            Some(_) => {
                let t = spec_pass(s[0], tail);
                lemma_pass_preserves_apply(src, spos + acc.source_need(), s[0], tail);
                crate::wire::lemma_encode_cons(acc, t.0);
                crate::wire::lemma_apply_spec_step(src, spos, acc, encode_blocks(t.0));
                crate::wire::lemma_apply_spec_step(src, spos, acc, s[0].encoding() + rest);
                assert(encode_blocks(seq![acc] + s) == acc.encoding() + (s[0].encoding() + rest));
                assert(spec_pass(acc, s).0 == seq![acc] + t.0);
                assert forall|i: int| 0 <= i < spec_pass(acc, s).0.len() implies (
                #[trigger] spec_pass(acc, s).0[i]).wf() by {
                    if i == 0 {
                        assert(spec_pass(acc, s).0[0] == acc);
                    } else {
                        assert(spec_pass(acc, s).0[i] == t.0[i - 1]);
                    }
                }
            },
        }
    }
}

/// The compression phase of the combine preserves what the diff does:
/// applying the compressed block list equals applying the original,
/// whatever the source and position.
pub proof fn lemma_compress_preserves_apply(src: Seq<u8>, spos: int, s: Seq<BlockView>)
    requires
        0 <= spos,
        views_wf(s),
    ensures
        views_wf(spec_compress(s)),
        apply_spec(src, spos, encode_blocks(spec_compress(s))) == apply_spec(
            src,
            spos,
            encode_blocks(s),
        ),
    decreases s.len(),
{
    if s.len() <= 1 {
    } else {
        let tail = s.skip(1);
        assert(views_wf(tail)) by {
            assert forall|i: int| 0 <= i < tail.len() implies (#[trigger] tail[i]).wf() by {
                assert(tail[i] == s[i + 1]);
            }
        }
        let t = spec_pass(s[0], tail);
        lemma_pass_preserves_apply(src, spos, s[0], tail);
        assert(seq![s[0]] + tail =~= s);
        if t.1 {
            lemma_pass_len(s[0], tail);
            lemma_compress_preserves_apply(src, spos, t.0);
        }
    }
}


/// A script is consistent with a source file `a` and an edited file `b`
/// from the given positions: every block stays within both files, the
/// bytes kept by a skip agree between the two files, and the script
/// consumes both files completely.
pub open spec fn script_ok(
    script: Seq<DiffBlockN<u32>>,
    a: Seq<u8>,
    apos: int,
    b: Seq<u8>,
    bpos: int,
) -> bool
    decreases script.len(),
{
    if script.len() == 0 {
        apos == a.len() && bpos == b.len()
    } else {
        match script[0] {
            DiffBlockN::Skip(n) => apos + n <= a.len() && bpos + n <= b.len() && a.subrange(
                apos,
                apos + n,
            ) == b.subrange(bpos, bpos + n) && script_ok(script.skip(1), a, apos + n, b, bpos + n),
            DiffBlockN::Add(n) => bpos + n <= b.len() && script_ok(
                script.skip(1),
                a,
                apos,
                b,
                bpos + n,
            ),
            DiffBlockN::Remove(n) => apos + n <= a.len() && script_ok(
                script.skip(1),
                a,
                apos + n,
                b,
                bpos,
            ),
            DiffBlockN::Replace(r, ad) => apos + r <= a.len() && bpos + ad <= b.len() && script_ok(
                script.skip(1),
                a,
                apos + r,
                b,
                bpos + ad,
            ),
            DiffBlockN::ReplaceWithSameLength(n) => apos + n <= a.len() && bpos + n <= b.len()
                && script_ok(script.skip(1), a, apos + n, b, bpos + n),
        }
    }
}

/// A consistent script never stands past the end of either file.
proof fn lemma_script_ok_bounds(
    script: Seq<DiffBlockN<u32>>,
    a: Seq<u8>,
    apos: int,
    b: Seq<u8>,
    bpos: int,
)
    requires
        script_ok(script, a, apos, b, bpos),
    ensures
        apos <= a.len(),
        bpos <= b.len(),
    decreases script.len(),
{
    if script.len() == 0 {
    } else {
        match script[0] {
            DiffBlockN::Skip(n) => {
                lemma_script_ok_bounds(script.skip(1), a, apos + n, b, bpos + n);
            },
            DiffBlockN::Add(n) => {
                lemma_script_ok_bounds(script.skip(1), a, apos, b, bpos + n);
            },
            DiffBlockN::Remove(n) => {
                lemma_script_ok_bounds(script.skip(1), a, apos + n, b, bpos);
            },
            DiffBlockN::Replace(r, ad) => {
                lemma_script_ok_bounds(script.skip(1), a, apos + r, b, bpos + ad);
            },
            DiffBlockN::ReplaceWithSameLength(n) => {
                lemma_script_ok_bounds(script.skip(1), a, apos + n, b, bpos + n);
            },
        }
    }
}

/// One consistent block followed by a rebuilt tail rebuilds the whole
/// rest of the edited file.
proof fn lemma_rebuild_cons(
    a: Seq<u8>,
    apos: int,
    b: Seq<u8>,
    bpos: int,
    bpos2: int,
    bv: BlockView,
    rest: Seq<BlockView>,
)
    requires
        bv.wf(),
        0 <= apos,
        0 <= bpos <= bpos2 <= b.len(),
        apos + bv.source_need() <= a.len(),
        bv.output_at(a, apos) == b.subrange(bpos, bpos2),
        apply_spec(a, apos + bv.source_need(), encode_blocks(rest)) == Ok::<Seq<u8>, DiffError>(
            b.skip(bpos2),
        ),
    ensures
        apply_spec(a, apos, encode_blocks(seq![bv] + rest)) == Ok::<Seq<u8>, DiffError>(
            b.skip(bpos),
        ),
{
    crate::wire::lemma_encode_cons(bv, rest);
    crate::wire::lemma_apply_spec_step(a, apos, bv, encode_blocks(rest));
    assert(b.subrange(bpos, bpos2) + b.skip(bpos2) =~= b.skip(bpos));
}

/// The round trip at the block level: a script consistent with a source
/// and an edited file rebuilds the edited file. Applying the script's
/// materialised, encoded blocks to the source from the matching position
/// yields exactly the rest of the edited file.
pub proof fn lemma_script_rebuilds(
    script: Seq<DiffBlockN<u32>>,
    a: Seq<u8>,
    apos: int,
    b: Seq<u8>,
    bpos: int,
)
    requires
        0 <= apos,
        0 <= bpos,
        script_ok(script, a, apos, b, bpos),
    ensures
        apply_spec(a, apos, encode_blocks(materialize(script, b, bpos))) == Ok::<
            Seq<u8>,
            DiffError,
        >(b.skip(bpos)),
    decreases script.len(),
{
    if script.len() == 0 {
        assert(materialize(script, b, bpos) =~= Seq::<BlockView>::empty());
        assert(b.skip(bpos) =~= Seq::<u8>::empty());
    } else {
        let stepped = materialize_step(script[0], b, bpos);
        let bv = stepped.0;
        let rest = materialize(script.skip(1), b, stepped.1);
        assert(materialize(script, b, bpos) == seq![bv] + rest);
        match script[0] {
            DiffBlockN::Skip(n) => {
                assert(apos + n <= a.len() && bpos + n <= b.len() && a.subrange(apos, apos + n)
                    == b.subrange(bpos, bpos + n) && script_ok(
                    script.skip(1),
                    a,
                    apos + n,
                    b,
                    bpos + n,
                ));
                assert(stepped.1 == bpos + n);
                assert(bv.source_need() == n);
                lemma_script_rebuilds(script.skip(1), a, apos + n, b, bpos + n);
                assert(bv.output_at(a, apos) =~= b.subrange(bpos, bpos + n));
                lemma_rebuild_cons(a, apos, b, bpos, bpos + n, bv, rest);
            },
            DiffBlockN::Add(n) => {
                assert(bpos + n <= b.len() && script_ok(script.skip(1), a, apos, b, bpos + n));
                assert(stepped.1 == bpos + n);
                assert(bv.source_need() == 0);
                lemma_script_rebuilds(script.skip(1), a, apos, b, bpos + n);
                assert(bv.output_at(a, apos) =~= b.subrange(bpos, bpos + n));
                lemma_rebuild_cons(a, apos, b, bpos, bpos + n, bv, rest);
            },
            DiffBlockN::Remove(n) => {
                assert(apos + n <= a.len() && script_ok(script.skip(1), a, apos + n, b, bpos));
                lemma_script_ok_bounds(script.skip(1), a, apos + n, b, bpos);
                assert(stepped.1 == bpos);
                assert(bv.source_need() == n);
                lemma_script_rebuilds(script.skip(1), a, apos + n, b, bpos);
                assert(bv.output_at(a, apos) =~= b.subrange(bpos, bpos));
                lemma_rebuild_cons(a, apos, b, bpos, bpos, bv, rest);
            },
            DiffBlockN::Replace(r, ad) => {
                assert(apos + r <= a.len() && bpos + ad <= b.len() && script_ok(
                    script.skip(1),
                    a,
                    apos + r,
                    b,
                    bpos + ad,
                ));
                assert(stepped.1 == bpos + ad);
                assert(bv.source_need() == r);
                lemma_script_rebuilds(script.skip(1), a, apos + r, b, bpos + ad);
                assert(bv.output_at(a, apos) =~= b.subrange(bpos, bpos + ad));
                lemma_rebuild_cons(a, apos, b, bpos, bpos + ad, bv, rest);
            },
            DiffBlockN::ReplaceWithSameLength(n) => {
                assert(apos + n <= a.len() && bpos + n <= b.len() && script_ok(
                    script.skip(1),
                    a,
                    apos + n,
                    b,
                    bpos + n,
                ));
                assert(stepped.1 == bpos + n);
                lemma_script_rebuilds(script.skip(1), a, apos + n, b, bpos + n);
                assert(bv.output_at(a, apos) =~= b.subrange(bpos, bpos + n));
                assert(bv.source_need() == n);
                lemma_rebuild_cons(a, apos, b, bpos, bpos + n, bv, rest);
            },
        }
    }
}

/// The round trip at the wire level: wire bytes that encode a script
/// consistent with the two whole files rebuild the edited file when
/// applied to the source.
pub proof fn lemma_round_trip(script: Seq<DiffBlockN<u32>>, a: Seq<u8>, b: Seq<u8>, out: Seq<u8>)
    requires
        script_ok(script, a, 0, b, 0),
        out == encode_blocks(materialize(script, b, 0)),
    ensures
        apply_spec(a, 0, out) == Ok::<Seq<u8>, DiffError>(b),
{
    lemma_script_rebuilds(script, a, 0, b, 0);
    assert(b.skip(0) =~= b);
}


/// What the diff builder promises of each script entry: positive sizes,
/// and a plain replacement only with differing sides.
pub open spec fn script_entry_emit_ok(b: DiffBlockN<u32>) -> bool {
    match b {
        DiffBlockN::Skip(n) => n >= 1,
        DiffBlockN::Add(n) => n >= 1,
        DiffBlockN::Remove(n) => n >= 1,
        DiffBlockN::Replace(r, a) => r >= 1 && a >= 1 && r != a,
        DiffBlockN::ReplaceWithSameLength(n) => n >= 1,
    }
}

/// The replacement preference at the wire level: under a script
/// consistent with the two files, every materialised block is nonempty
/// and a replacement block carries a payload whose length differs from
/// its removed size — an equal-length replacement always takes the
/// shorter same-length form.
pub proof fn lemma_materialize_emit(
    script: Seq<DiffBlockN<u32>>,
    a: Seq<u8>,
    apos: int,
    b: Seq<u8>,
    bpos: int,
)
    requires
        0 <= apos,
        0 <= bpos,
        script_ok(script, a, apos, b, bpos),
        forall|i: int| 0 <= i < script.len() ==> script_entry_emit_ok(#[trigger] script[i]),
    ensures
        forall|i: int|
            0 <= i < materialize(script, b, bpos).len() ==> (#[trigger] materialize(
                script,
                b,
                bpos,
            )[i]).emit_wf(),
    decreases script.len(),
{
    if script.len() > 0 {
        let stepped = materialize_step(script[0], b, bpos);
        let bv = stepped.0;
        assert(script_entry_emit_ok(script[0]));
        assert(bv.emit_wf()) by {
            match script[0] {
                DiffBlockN::Skip(n) => {},
                DiffBlockN::Add(n) => {
                    assert(slice_at(b, bpos, n as int) =~= b.subrange(bpos, bpos + n));
                },
                DiffBlockN::Remove(n) => {},
                DiffBlockN::Replace(r, ad) => {
                    assert(slice_at(b, bpos, ad as int) =~= b.subrange(bpos, bpos + ad));
                },
                DiffBlockN::ReplaceWithSameLength(n) => {
                    assert(slice_at(b, bpos, n as int) =~= b.subrange(bpos, bpos + n));
                },
            }
        }
        let tail = script.skip(1);
        assert(forall|i: int| 0 <= i < tail.len() ==> tail[i] == #[trigger] script[i + 1]);
        match script[0] {
            DiffBlockN::Skip(n) => {
                lemma_materialize_emit(tail, a, apos + n, b, bpos + n);
                assert(stepped.1 == bpos + n);
            },
            DiffBlockN::Add(n) => {
                lemma_materialize_emit(tail, a, apos, b, bpos + n);
                assert(stepped.1 == bpos + n);
            },
            DiffBlockN::Remove(n) => {
                lemma_materialize_emit(tail, a, apos + n, b, bpos);
                assert(stepped.1 == bpos);
            },
            DiffBlockN::Replace(r, ad) => {
                lemma_materialize_emit(tail, a, apos + r, b, bpos + ad);
                assert(stepped.1 == bpos + ad);
            },
            DiffBlockN::ReplaceWithSameLength(n) => {
                lemma_materialize_emit(tail, a, apos + n, b, bpos + n);
                assert(stepped.1 == bpos + n);
            },
        }
        assert forall|i: int|
            0 <= i < materialize(script, b, bpos).len() implies (#[trigger] materialize(
            script,
            b,
            bpos,
        )[i]).emit_wf() by {
            if i == 0 {
                assert(materialize(script, b, bpos)[0] == bv);
            } else {
                assert(materialize(script, b, bpos)[i] == materialize(tail, b, stepped.1)[i - 1]);
            }
        }
    }
}

} // verus!
