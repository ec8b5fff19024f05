//! Turning two files' hashed lines into a stream of byte-level blocks.
//!
//! The digests of the two files' lines are compared by an off-the-shelf
//! line diff; the resulting runs of same, removed and added lines are
//! coalesced into a line-level script, which is then translated into
//! byte-level blocks using the leaf sizes of both indexes.

use vstd::prelude::*;
use vstd::math::min;
use vstd::string::*;
use crate::diff_block::{DiffBlock, DiffBlockN};
use crate::lines_with_hash_iterator::{HashedLine, LinesWithHashIterator};
use crate::indexes::Indexes;
use crate::readslice::ReadSlice;
use crate::functions::digest_of;
use crate::indexes::EntryView;
use crate::wire::BlockView;

verus! {

/// One run of a line-level change script.
pub enum Change {
    /// Lines present in both files.
    Same(String),
    /// Lines only in the second file.
    Add(String),
    /// Lines only in the first file.
    Rem(String),
}

/// Splits a text at every newline; the count of pieces is always one more
/// than the count of newlines.
pub open spec fn lines_of(s: Seq<char>) -> Seq<Seq<char>>
    decreases s.len(),
{
    if s.len() == 0 {
        seq![Seq::empty()]
    } else if s[0] == '\n' {
        seq![Seq::<char>::empty()] + lines_of(s.skip(1))
    } else {
        let r = lines_of(s.skip(1));
        seq![seq![s[0]] + r[0]] + r.skip(1)
    }
}

/// The lines of a text as the line diff sees them: an empty text has no
/// lines at all, any other text splits at newlines.
pub open spec fn split_text(s: Seq<char>) -> Seq<Seq<char>> {
    if s.len() == 0 {
        Seq::empty()
    } else {
        lines_of(s)
    }
}

/// The pieces joined with single newlines.
pub open spec fn join_nl(xs: Seq<Seq<char>>) -> Seq<char>
    decreases xs.len(),
{
    if xs.len() == 0 {
        Seq::empty()
    } else if xs.len() == 1 {
        xs[0]
    } else {
        join_nl(xs.drop_last()) + seq!['\n'] + xs.last()
    }
}

/// The lines a change script consumes from the first file, in order.
pub open spec fn src_lines(cs: Seq<Change>) -> Seq<Seq<char>>
    decreases cs.len(),
{
    if cs.len() == 0 {
        Seq::empty()
    } else {
        (match cs[0] {
            Change::Same(s) => lines_of(s@),
            Change::Rem(s) => lines_of(s@),
            Change::Add(_) => Seq::empty(),
        }) + src_lines(cs.skip(1))
    }
}

/// The lines a change script produces for the second file, in order.
pub open spec fn dst_lines(cs: Seq<Change>) -> Seq<Seq<char>>
    decreases cs.len(),
{
    if cs.len() == 0 {
        Seq::empty()
    } else {
        (match cs[0] {
            Change::Same(s) => lines_of(s@),
            Change::Add(s) => lines_of(s@),
            Change::Rem(_) => Seq::empty(),
        }) + dst_lines(cs.skip(1))
    }
}

/// A change script walks the two files' lines positionally: each run's
/// lines stand at the current position of the side or sides it touches —
/// a same-run's lines at the current position of both — and the script
/// consumes both files' lines completely.
pub open spec fn aligned_runs(
    cs: Seq<Change>,
    la: Seq<Seq<char>>,
    lb: Seq<Seq<char>>,
    ia: int,
    ib: int,
) -> bool
    decreases cs.len(),
{
    if cs.len() == 0 {
        ia == la.len() && ib == lb.len()
    } else {
        match cs[0] {
            Change::Same(s) => {
                let k = lines_of(s@).len() as int;
                &&& 0 <= ia && ia + k <= la.len()
                &&& 0 <= ib && ib + k <= lb.len()
                &&& lines_of(s@) == la.subrange(ia, ia + k)
                &&& lines_of(s@) == lb.subrange(ib, ib + k)
                &&& aligned_runs(cs.skip(1), la, lb, ia + k, ib + k)
            },
            Change::Rem(s) => {
                let k = lines_of(s@).len() as int;
                &&& 0 <= ia && ia + k <= la.len()
                &&& lines_of(s@) == la.subrange(ia, ia + k)
                &&& aligned_runs(cs.skip(1), la, lb, ia + k, ib)
            },
            Change::Add(s) => {
                let k = lines_of(s@).len() as int;
                &&& 0 <= ib && ib + k <= lb.len()
                &&& lines_of(s@) == lb.subrange(ib, ib + k)
                &&& aligned_runs(cs.skip(1), la, lb, ia, ib + k)
            },
        }
    }
}

/// Computes the line-level change script between two files given as lists
/// of line digests.
///
/// Relies on `difference::Changeset::new` over the inputs joined with a
/// newline separator: the runs it returns partition the split lines of
/// each input — the `Same` and `Rem` runs carry exactly the lines of the
/// first input in order, and the `Same` and `Add` runs exactly the lines
/// of the second — and walk the two line lists positionally, a same-run
/// consuming the same lines from both at once. Equal inputs yield at
/// most one run, a same-run.
#[verifier::external_body]
fn changeset_of_lines(a: &Vec<String>, b: &Vec<String>) -> (r: Vec<Change>)
    ensures
        src_lines(r@) == split_text(join_nl(a@.map_values(|s: String| s@))),
        dst_lines(r@) == split_text(join_nl(b@.map_values(|s: String| s@))),
        a@.map_values(|s: String| s@) == b@.map_values(|s: String| s@) ==> r@.len() <= 1 && (r@.len()
            == 1 ==> r@[0] is Same),
        aligned_runs(
            r@,
            split_text(join_nl(a@.map_values(|s: String| s@))),
            split_text(join_nl(b@.map_values(|s: String| s@))),
            0,
            0,
        ),
{
    let sa = a.join("\n");
    let sb = b.join("\n");
    let changeset = difference::Changeset::new(&sa, &sb, "\n");
    changeset
        .diffs
        .into_iter()
        .map(
            |d|
                match d {
                    difference::Difference::Same(s) => Change::Same(s),
                    difference::Difference::Add(s) => Change::Add(s),
                    difference::Difference::Rem(s) => Change::Rem(s),
                },
        )
        .collect()
}

/// The count of newlines in a text.
pub open spec fn count_nl(s: Seq<char>) -> int
    decreases s.len(),
{
    if s.len() == 0 {
        0
    } else {
        count_nl(s.drop_last()) + (if s.last() == '\n' {
            1int
        } else {
            0int
        })
    }
}

/// Newlines counted from the front instead of the back.
proof fn lemma_count_nl_front(s: Seq<char>)
    requires
        s.len() > 0,
    ensures
        count_nl(s) == count_nl(s.skip(1)) + (if s[0] == '\n' {
            1int
        } else {
            0int
        }),
    decreases s.len(),
{
    if s.len() == 1 {
        assert(s.drop_last() =~= Seq::empty());
        assert(s.skip(1) =~= Seq::empty());
    } else {
        lemma_count_nl_front(s.drop_last());
        assert(s.drop_last().skip(1) =~= s.skip(1).drop_last());
        assert(s.skip(1).last() == s.last());
        assert(s.drop_last()[0] == s[0]);
    }
}

/// A text has one more line than it has newlines.
pub proof fn lemma_lines_count(s: Seq<char>)
    ensures
        lines_of(s).len() == count_nl(s) + 1,
    decreases s.len(),
{
    if s.len() == 0 {
    } else {
        lemma_lines_count(s.skip(1));
        lemma_count_nl_front(s);
    }
}

/// The count of lines in a text, when it fits a machine word.
fn count_lines(s: &str) -> (r: Option<usize>)
    ensures
        r matches Some(n) ==> n == lines_of(s@).len(),
        r is None ==> lines_of(s@).len() > usize::MAX,
{
    proof {
        lemma_lines_count(s@);
    }
    let n = s.unicode_len();
    let mut cnt: usize = 0;
    let mut i: usize = 0;
    while i < n
        invariant
            i <= n,
            n == s@.len(),
            cnt <= i,
            cnt == count_nl(s@.take(i as int)),
        decreases n - i,
    {
        proof {
            assert(s@.take(i + 1).drop_last() =~= s@.take(i as int));
            assert(s@.take(i + 1).last() == s@[i as int]);
            lemma_count_nl_nonneg(s@.take(i as int));
        }
        if s.get_char(i) == '\n' {
            cnt = cnt + 1;
        }
        i = i + 1;
    }
    proof {
        assert(s@.take(n as int) =~= s@);
        lemma_count_nl_nonneg(s@);
    }
    if cnt == usize::MAX {
        return None;
    }
    Some(cnt + 1)
}

/// Newline counts are never negative.
proof fn lemma_count_nl_nonneg(s: Seq<char>)
    ensures
        count_nl(s) >= 0,
    decreases s.len(),
{
    if s.len() > 0 {
        lemma_count_nl_nonneg(s.drop_last());
    }
}

/// A text free of separators.
pub open spec fn nl_free(s: Seq<char>) -> bool {
    forall|j: int| 0 <= j < s.len() ==> s[j] != '\n'
}

/// A separator-free text is a single line.
proof fn lemma_lines_single(s: Seq<char>)
    requires
        nl_free(s),
    ensures
        lines_of(s) == seq![s],
    decreases s.len(),
{
    if s.len() == 0 {
        assert(s =~= Seq::<char>::empty());
        assert(lines_of(s) =~= seq![s]);
    } else {
        assert(nl_free(s.skip(1))) by {
            assert(forall|j: int| 0 <= j < s.skip(1).len() ==> s.skip(1)[j] == s[j + 1]);
        }
        lemma_lines_single(s.skip(1));
        assert(seq![s[0]] + s.skip(1) =~= s);
        assert(lines_of(s) =~= seq![s]);
    }
}

/// Splitting after a separator-free first piece peels it off.
proof fn lemma_lines_prefix(u: Seq<char>, v: Seq<char>)
    requires
        nl_free(u),
    ensures
        lines_of(u + seq!['\n'] + v) == seq![u] + lines_of(v),
    decreases u.len(),
{
    let s = u + seq!['\n'] + v;
    if u.len() == 0 {
        assert(u =~= Seq::<char>::empty());
        assert(s =~= seq!['\n'] + v);
        assert(s[0] == '\n');
        assert(s.skip(1) =~= v);
        assert(lines_of(s) == seq![Seq::<char>::empty()] + lines_of(s.skip(1)));
        assert(lines_of(s) =~= seq![u] + lines_of(v));
    } else {
        assert(nl_free(u.skip(1))) by {
            assert(forall|j: int| 0 <= j < u.skip(1).len() ==> u.skip(1)[j] == u[j + 1]);
        }
        lemma_lines_prefix(u.skip(1), v);
        assert(s[0] == u[0]);
        assert(s[0] != '\n');
        assert(s.skip(1) =~= u.skip(1) + seq!['\n'] + v);
        let r = lines_of(s.skip(1));
        assert(r == seq![u.skip(1)] + lines_of(v));
        assert(r[0] == u.skip(1));
        assert(lines_of(s) == seq![seq![s[0]] + r[0]] + r.skip(1));
        assert(seq![s[0]] + u.skip(1) =~= u);
        assert(r.skip(1) =~= lines_of(v));
        assert(lines_of(s) =~= seq![u] + lines_of(v));
    }
}

/// Joining unfolds at the front as well as at the back.
proof fn lemma_join_front(xs: Seq<Seq<char>>)
    requires
        xs.len() >= 2,
    ensures
        join_nl(xs) == xs[0] + seq!['\n'] + join_nl(xs.skip(1)),
    decreases xs.len(),
{
    if xs.len() == 2 {
        assert(xs.drop_last() =~= seq![xs[0]]);
        assert(xs.skip(1) =~= seq![xs[1]]);
        assert(join_nl(seq![xs[0]]) == xs[0]);
        assert(join_nl(seq![xs[1]]) == xs[1]);
    } else {
        lemma_join_front(xs.drop_last());
        assert(xs.drop_last()[0] == xs[0]);
        assert(xs.drop_last().skip(1) =~= xs.skip(1).drop_last());
        assert(xs.skip(1).last() == xs.last());
        assert((xs[0] + seq!['\n'] + join_nl(xs.skip(1).drop_last())) + seq!['\n'] + xs.last()
            =~= xs[0] + seq!['\n'] + (join_nl(xs.skip(1).drop_last()) + seq!['\n'] + xs.last()));
    }
}

/// Splitting the separator-joined pieces recovers them, when the pieces
/// are separator-free.
proof fn lemma_lines_join(xs: Seq<Seq<char>>)
    requires
        xs.len() >= 1,
        forall|i: int| 0 <= i < xs.len() ==> nl_free(#[trigger] xs[i]),
    ensures
        lines_of(join_nl(xs)) == xs,
    decreases xs.len(),
{
    if xs.len() == 1 {
        lemma_lines_single(xs[0]);
        assert(seq![xs[0]] =~= xs);
    } else {
        lemma_join_front(xs);
        assert(forall|i: int| 0 <= i < xs.skip(1).len() ==> xs.skip(1)[i] == xs[i + 1]);
        lemma_lines_join(xs.skip(1));
        lemma_lines_prefix(xs[0], join_nl(xs.skip(1)));
        assert(seq![xs[0]] + xs.skip(1) =~= xs);
    }
}

/// The lines of a change script unfold at the last run too.
proof fn lemma_src_lines_snoc(cs: Seq<Change>)
    requires
        cs.len() >= 1,
    ensures
        src_lines(cs) == src_lines(cs.drop_last()) + (match cs.last() {
            Change::Same(s) => lines_of(s@),
            Change::Rem(s) => lines_of(s@),
            Change::Add(_) => Seq::<Seq<char>>::empty(),
        }),
        dst_lines(cs) == dst_lines(cs.drop_last()) + (match cs.last() {
            Change::Same(s) => lines_of(s@),
            Change::Add(s) => lines_of(s@),
            Change::Rem(_) => Seq::<Seq<char>>::empty(),
        }),
    decreases cs.len(),
{
    if cs.len() == 1 {
        assert(cs.skip(1) =~= Seq::<Change>::empty());
        assert(cs.drop_last() =~= Seq::<Change>::empty());
        assert(cs.last() == cs[0]);
        assert(src_lines(Seq::<Change>::empty()) == Seq::<Seq<char>>::empty());
        assert(dst_lines(Seq::<Change>::empty()) == Seq::<Seq<char>>::empty());
        assert(src_lines(cs.skip(1)) == Seq::<Seq<char>>::empty());
        assert(dst_lines(cs.skip(1)) == Seq::<Seq<char>>::empty());
        match cs[0] {
            Change::Same(s) => {
                assert(src_lines(cs) =~= Seq::<Seq<char>>::empty() + lines_of(s@));
                assert(dst_lines(cs) =~= Seq::<Seq<char>>::empty() + lines_of(s@));
            },
            Change::Rem(s) => {
                assert(src_lines(cs) =~= Seq::<Seq<char>>::empty() + lines_of(s@));
                assert(dst_lines(cs) =~= Seq::<Seq<char>>::empty() + Seq::<Seq<char>>::empty());
            },
            Change::Add(s) => {
                assert(src_lines(cs) =~= Seq::<Seq<char>>::empty() + Seq::<Seq<char>>::empty());
                assert(dst_lines(cs) =~= Seq::<Seq<char>>::empty() + lines_of(s@));
            },
        }
    } else {
        lemma_src_lines_snoc(cs.skip(1));
        assert(cs.skip(1).drop_last() =~= cs.drop_last().skip(1));
        assert(cs.skip(1).last() == cs.last());
        assert(cs.drop_last()[0] == cs[0]);
        let head_src: Seq<Seq<char>> = match cs[0] {
            Change::Same(s) => lines_of(s@),
            Change::Rem(s) => lines_of(s@),
            Change::Add(_) => Seq::empty(),
        };
        let head_dst: Seq<Seq<char>> = match cs[0] {
            Change::Same(s) => lines_of(s@),
            Change::Add(s) => lines_of(s@),
            Change::Rem(_) => Seq::empty(),
        };
        let tail_src: Seq<Seq<char>> = match cs.last() {
            Change::Same(s) => lines_of(s@),
            Change::Rem(s) => lines_of(s@),
            Change::Add(_) => Seq::empty(),
        };
        let tail_dst: Seq<Seq<char>> = match cs.last() {
            Change::Same(s) => lines_of(s@),
            Change::Add(s) => lines_of(s@),
            Change::Rem(_) => Seq::empty(),
        };
        assert(head_src + (src_lines(cs.drop_last().skip(1)) + tail_src) =~= (head_src
            + src_lines(cs.drop_last().skip(1))) + tail_src);
        assert(head_dst + (dst_lines(cs.drop_last().skip(1)) + tail_dst) =~= (head_dst
            + dst_lines(cs.drop_last().skip(1))) + tail_dst);
    }
}

/// A prefix of a change script covers no more lines than the whole.
proof fn lemma_lines_prefix_len(cs: Seq<Change>, i: int)
    requires
        0 <= i <= cs.len(),
    ensures
        src_lines(cs.take(i)).len() <= src_lines(cs).len(),
        dst_lines(cs.take(i)).len() <= dst_lines(cs).len(),
    decreases cs.len(),
{
    if i == 0 {
        assert(cs.take(0) =~= Seq::<Change>::empty());
    } else {
        assert(cs.take(i)[0] == cs[0]);
        assert(cs.take(i).skip(1) =~= cs.skip(1).take(i - 1));
        lemma_lines_prefix_len(cs.skip(1), i - 1);
    }
}

/// Every count of the line-level script is bounded by the lines the
/// script covers on the matching side.
proof fn lemma_pd_vals_bounded(cs: Seq<Change>)
    ensures
        forall|i: int|
            0 <= i < spec_process_diff(cs).len() ==> match #[trigger] spec_process_diff(cs)[i] {
                DiffBlockN::Skip(n) => 0 <= n <= src_lines(cs).len(),
                DiffBlockN::Add(n) => 0 <= n <= dst_lines(cs).len(),
                DiffBlockN::Remove(n) => 0 <= n <= src_lines(cs).len(),
                DiffBlockN::Replace(m, k) => 0 <= m <= src_lines(cs).len() && 0 <= k <= dst_lines(
                    cs,
                ).len(),
                DiffBlockN::ReplaceWithSameLength(_) => true,
            },
    decreases cs.len(),
{
    if cs.len() == 0 {
    } else {
        lemma_pd_vals_bounded(cs.drop_last());
        lemma_src_lines_snoc(cs);
        let prev = spec_process_diff(cs.drop_last());
        let out = spec_process_diff(cs);
        assert forall|i: int| 0 <= i < out.len() implies match #[trigger] out[i] {
            DiffBlockN::Skip(n) => 0 <= n <= src_lines(cs).len(),
            DiffBlockN::Add(n) => 0 <= n <= dst_lines(cs).len(),
            DiffBlockN::Remove(n) => 0 <= n <= src_lines(cs).len(),
            DiffBlockN::Replace(m, k) => 0 <= m <= src_lines(cs).len() && 0 <= k <= dst_lines(
                cs,
            ).len(),
            DiffBlockN::ReplaceWithSameLength(_) => true,
        } by {
            if i < prev.len() && (i < out.len() - 1 || out.len() > prev.len()) {
                assert(out[i] == prev[i]);
            }
        }
    }
}

/// The counted form of a line-level block, free of machine bounds.
pub open spec fn nview(b: DiffBlockN<usize>) -> DiffBlockN<int> {
    match b {
        DiffBlockN::Skip(n) => DiffBlockN::Skip(n as int),
        DiffBlockN::Add(n) => DiffBlockN::Add(n as int),
        DiffBlockN::Remove(n) => DiffBlockN::Remove(n as int),
        DiffBlockN::Replace(a, b) => DiffBlockN::Replace(a as int, b as int),
        DiffBlockN::ReplaceWithSameLength(n) => DiffBlockN::ReplaceWithSameLength(n as int),
    }
}

/// The counted views of a whole script.
pub open spec fn nviews(v: Seq<DiffBlockN<usize>>) -> Seq<DiffBlockN<int>> {
    v.map_values(|b: DiffBlockN<usize>| nview(b))
}

/// Every count in a script fits a machine word.
pub open spec fn script_vals_ok(s: Seq<DiffBlockN<int>>) -> bool {
    forall|i: int|
        0 <= i < s.len() ==> match #[trigger] s[i] {
            DiffBlockN::Skip(n) => 0 <= n <= usize::MAX,
            DiffBlockN::Add(n) => 0 <= n <= usize::MAX,
            DiffBlockN::Remove(n) => 0 <= n <= usize::MAX,
            DiffBlockN::Replace(a, b) => 0 <= a <= usize::MAX && 0 <= b <= usize::MAX,
            DiffBlockN::ReplaceWithSameLength(n) => 0 <= n <= usize::MAX,
        }
}

/// One run folded onto the end of the line-level script: same lines grow
/// the trailing skip, removed lines start a removal, and added lines
/// right after a removal turn it into a replacement.
pub open spec fn pd_step(acc: Seq<DiffBlockN<int>>, c: Change) -> Seq<DiffBlockN<int>> {
    match c {
        Change::Same(x) => {
            let k = lines_of(x@).len() as int;
            if acc.len() > 0 && acc.last() is Skip {
                acc.update(acc.len() - 1, DiffBlockN::Skip(acc.last()->Skip_0 + k))
            } else {
                acc.push(DiffBlockN::Skip(k))
            }
        },
        Change::Rem(x) => acc.push(DiffBlockN::Remove(lines_of(x@).len() as int)),
        Change::Add(x) => {
            let k = lines_of(x@).len() as int;
            if acc.len() > 0 && acc.last() is Remove {
                acc.update(acc.len() - 1, DiffBlockN::Replace(acc.last()->Remove_0, k))
            } else {
                acc.push(DiffBlockN::Add(k))
            }
        },
    }
}

/// The line-level script of a change list: a leading empty skip, then
/// each run folded on in order.
pub open spec fn spec_process_diff(cs: Seq<Change>) -> Seq<DiffBlockN<int>>
    decreases cs.len(),
{
    if cs.len() == 0 {
        seq![DiffBlockN::Skip(0int)]
    } else {
        pd_step(spec_process_diff(cs.drop_last()), cs.last())
    }
}


/// Folds the change runs into the line-level script, checking that every
/// count fits a machine word.
fn process_diff(diffs: &Vec<Change>) -> (r: Result<Vec<DiffBlockN<usize>>, String>)
    ensures
        r matches Ok(v) ==> nviews(v@) == spec_process_diff(diffs@),
        (forall|i: int|
            0 <= i <= diffs@.len() ==> script_vals_ok(
                #[trigger] spec_process_diff(diffs@.take(i)),
            )) ==> r is Ok,
{
    let mut o: Vec<DiffBlockN<usize>> = Vec::new();
    o.push(DiffBlockN::Skip(0));
    let n = diffs.len();
    let mut k: usize = 0;
    proof {
        assert(diffs@.take(0) =~= Seq::empty());
        assert(nviews(o@) =~= spec_process_diff(diffs@.take(0)));
    }
    while k < n
        invariant
            k <= n,
            n == diffs@.len(),
            o@.len() >= 1,
            nviews(o@) == spec_process_diff(diffs@.take(k as int)),
        decreases n - k,
    {
        proof {
            assert(diffs@.take(k + 1).drop_last() =~= diffs@.take(k as int));
            assert(diffs@.take(k + 1).last() == diffs@[k as int]);
        }
        let ghost cur = spec_process_diff(diffs@.take(k + 1));
        let ghost prev = spec_process_diff(diffs@.take(k as int));
        let last = o.len() - 1;
        match &diffs[k] {
            Change::Same(x) => {
                let c = match count_lines(x.as_str()) {
                    Some(c) => c,
                    None => {
                        proof {
                            assert(!script_vals_ok(cur)) by {
                                if prev.last() is Skip {
                                    assert(cur[cur.len() - 1]->Skip_0 > usize::MAX);
                                } else {
                                    assert(cur[cur.len() - 1]->Skip_0 > usize::MAX);
                                }
                            }
                        }
                        return Err("line count does not fit".to_owned());
                    },
                };
                let lastb = o[last];
                match lastb {
                    DiffBlockN::Skip(m) => {
                        if m > usize::MAX - c {
                            proof {
                                assert(nviews(o@)[last as int] == nview(lastb));
                                assert(!script_vals_ok(cur)) by {
                                    assert(cur[cur.len() - 1]->Skip_0 > usize::MAX);
                                }
                            }
                            return Err("line count does not fit".to_owned());
                        }
                        o[last] = DiffBlockN::Skip(m + c);
                        proof {
                            assert(nviews(o@)[last as int] == nview(o@[last as int]));
                            assert(nviews(o@) =~= cur);
                        }
                    },
                    _ => {
                        o.push(DiffBlockN::Skip(c));
                        proof {
                            assert(nviews(o@) =~= cur);
                        }
                    },
                }
            },
            Change::Rem(x) => {
                let c = match count_lines(x.as_str()) {
                    Some(c) => c,
                    None => {
                        proof {
                            assert(!script_vals_ok(cur)) by {
                                assert(cur[cur.len() - 1]->Remove_0 > usize::MAX);
                            }
                        }
                        return Err("line count does not fit".to_owned());
                    },
                };
                o.push(DiffBlockN::Remove(c));
                proof {
                    assert(nviews(o@) =~= cur);
                }
            },
            Change::Add(x) => {
                let c = match count_lines(x.as_str()) {
                    Some(c) => c,
                    None => {
                        proof {
                            assert(!script_vals_ok(cur)) by {
                                if prev.last() is Remove {
                                    assert(cur[cur.len() - 1]->Replace_1 > usize::MAX);
                                } else {
                                    assert(cur[cur.len() - 1]->Add_0 > usize::MAX);
                                }
                            }
                        }
                        return Err("line count does not fit".to_owned());
                    },
                };
                let lastb = o[last];
                match lastb {
                    DiffBlockN::Remove(m) => {
                        o[last] = DiffBlockN::Replace(m, c);
                        proof {
                            assert(nviews(o@)[last as int] == nview(o@[last as int]));
                            assert(nviews(o@) =~= cur);
                        }
                    },
                    _ => {
                        o.push(DiffBlockN::Add(c));
                        proof {
                            assert(nviews(o@) =~= cur);
                        }
                    },
                }
            },
        }
        k = k + 1;
    }
    proof {
        assert(diffs@.take(n as int) =~= diffs@);
    }
    Ok(o)
}

/// The sum of `n` sizes starting at `from`, stopping at the end.
pub open spec fn sum_range(s: Seq<int>, from: int, n: int) -> int
    decreases n,
{
    if n <= 0 || from < 0 || from >= s.len() {
        0
    } else {
        s[from] + sum_range(s, from + 1, n - 1)
    }
}

/// Where a consumer that took `n` sizes from `from` stands afterwards.
pub open spec fn advance(s: Seq<int>, from: int, n: int) -> int {
    min(from + n, s.len() as int)
}

/// All sizes are nonnegative.
pub open spec fn sizes_nonneg(s: Seq<int>) -> bool {
    forall|i: int| 0 <= i < s.len() ==> #[trigger] s[i] >= 0
}

/// Sums of nonnegative sizes are nonnegative.
pub proof fn lemma_sum_range_nonneg(s: Seq<int>, from: int, n: int)
    requires
        sizes_nonneg(s),
    ensures
        sum_range(s, from, n) >= 0,
    decreases n,
{
    if !(n <= 0 || from < 0 || from >= s.len()) {
        lemma_sum_range_nonneg(s, from + 1, n - 1);
    }
}

/// Taking more sizes never shrinks the sum.
pub proof fn lemma_sum_range_mono(s: Seq<int>, from: int, n1: int, n2: int)
    requires
        sizes_nonneg(s),
        n1 <= n2,
    ensures
        sum_range(s, from, n1) <= sum_range(s, from, n2),
    decreases n2,
{
    if n1 <= 0 || from < 0 || from >= s.len() {
        lemma_sum_range_nonneg(s, from, n2);
    } else {
        lemma_sum_range_mono(s, from + 1, n1 - 1, n2 - 1);
    }
}

/// A sum splits at any point.
pub proof fn lemma_sum_range_split(s: Seq<int>, from: int, n1: int, n2: int)
    requires
        0 <= n1,
        0 <= n2,
        0 <= from,
    ensures
        sum_range(s, from, n1 + n2) == sum_range(s, from, n1) + sum_range(s, from + n1, n2),
    decreases n1,
{
    if n1 == 0 {
    } else if from >= s.len() {
        assert(sum_range(s, from + n1, n2) == 0);
    } else {
        lemma_sum_range_split(s, from + 1, n1 - 1, n2);
    }
}

/// A partial sum is bounded by the total.
pub proof fn lemma_sum_range_le_total(s: Seq<int>, from: int, n: int)
    requires
        sizes_nonneg(s),
        0 <= from,
    ensures
        sum_range(s, from, n) <= sum_range(s, 0, s.len() as int),
{
    let ll = s.len() as int;
    if n < 0 || from >= ll {
        lemma_sum_range_nonneg(s, 0, ll);
        assert(sum_range(s, from, n) == 0);
    } else {
        lemma_sum_range_split(s, 0, from, ll - from);
        lemma_sum_range_nonneg(s, 0, from);
        if n <= ll - from {
            lemma_sum_range_mono(s, from, n, ll - from);
        } else {
            lemma_sum_range_split(s, from, ll - from, n - (ll - from));
            assert(sum_range(s, ll, n - (ll - from)) == 0);
        }
    }
}

/// The sizes of a list of hashed lines.
pub open spec fn sizes_of(v: Seq<HashedLine>) -> Seq<int> {
    v.map_values(|e: HashedLine| e.2 as int)
}

/// The byte-level view of a block counted in 32-bit sizes.
pub open spec fn n32view(b: DiffBlockN<u32>) -> DiffBlockN<int> {
    match b {
        DiffBlockN::Skip(n) => DiffBlockN::Skip(n as int),
        DiffBlockN::Add(n) => DiffBlockN::Add(n as int),
        DiffBlockN::Remove(n) => DiffBlockN::Remove(n as int),
        DiffBlockN::Replace(a, b) => DiffBlockN::Replace(a as int, b as int),
        DiffBlockN::ReplaceWithSameLength(n) => DiffBlockN::ReplaceWithSameLength(n as int),
    }
}

/// The byte-level views of a whole script.
pub open spec fn n32views(v: Seq<DiffBlockN<u32>>) -> Seq<DiffBlockN<int>> {
    v.map_values(|b: DiffBlockN<u32>| n32view(b))
}

/// The byte-level script of a line script: each run's line count is
/// replaced by the total byte size of the lines it covers, empty blocks
/// are dropped, and a replacement whose sides have equal sizes becomes a
/// same-length replacement.
pub open spec fn spec_process_diff_2(
    script: Seq<DiffBlockN<int>>,
    sa: Seq<int>,
    sb: Seq<int>,
    ia: int,
    ib: int,
) -> Seq<DiffBlockN<int>>
    decreases script.len(),
{
    if script.len() == 0 {
        Seq::empty()
    } else {
        match script[0] {
            DiffBlockN::Skip(n) => {
                let size = sum_range(sa, ia, n);
                let rest = spec_process_diff_2(
                    script.skip(1),
                    sa,
                    sb,
                    advance(sa, ia, n),
                    advance(sb, ib, n),
                );
                if size != 0 {
                    seq![DiffBlockN::Skip(size)] + rest
                } else {
                    rest
                }
            },
            DiffBlockN::Add(n) => {
                let size = sum_range(sb, ib, n);
                let rest = spec_process_diff_2(script.skip(1), sa, sb, ia, advance(sb, ib, n));
                if size != 0 {
                    seq![DiffBlockN::Add(size)] + rest
                } else {
                    rest
                }
            },
            DiffBlockN::Remove(n) => {
                let size = sum_range(sa, ia, n);
                let rest = spec_process_diff_2(script.skip(1), sa, sb, advance(sa, ia, n), ib);
                if size != 0 {
                    seq![DiffBlockN::Remove(size)] + rest
                } else {
                    rest
                }
            },
            DiffBlockN::Replace(rl, al) => {
                let rem = sum_range(sa, ia, rl);
                let ad = sum_range(sb, ib, al);
                let rest = spec_process_diff_2(
                    script.skip(1),
                    sa,
                    sb,
                    advance(sa, ia, rl),
                    advance(sb, ib, al),
                );
                if rem != 0 && ad != 0 {
                    if ad == rem {
                        seq![DiffBlockN::ReplaceWithSameLength(ad)] + rest
                    } else {
                        seq![DiffBlockN::Replace(rem, ad)] + rest
                    }
                } else if rem != 0 {
                    seq![DiffBlockN::Remove(rem)] + rest
                } else if ad != 0 {
                    seq![DiffBlockN::Add(ad)] + rest
                } else {
                    rest
                }
            },
            DiffBlockN::ReplaceWithSameLength(_) => Seq::empty(),
        }
    }
}

/// Takes up to `n` sizes from the list starting at `pos`, returning their
/// sum and the new position.
fn consume_sizes(index: &Vec<HashedLine>, pos: usize, n: usize) -> (r: (u32, usize))
    requires
        pos <= index@.len(),
        sum_range(sizes_of(index@), 0, index@.len() as int) <= u32::MAX,
    ensures
        r.0 == sum_range(sizes_of(index@), pos as int, n as int),
        r.1 == advance(sizes_of(index@), pos as int, n as int),
        pos <= r.1 <= index@.len(),
{
    let ghost sizes = sizes_of(index@);
    proof {
        assert forall|i: int| 0 <= i < sizes.len() implies #[trigger] sizes[i] >= 0 by {
            assert(sizes[i] == index@[i].2 as int);
        }
    }
    let len = index.len();
    let mut sum: u32 = 0;
    let mut p = pos;
    let mut j: usize = 0;
    while j < n && p < len
        invariant
            p == pos + j,
            p <= len,
            j <= n,
            len == index@.len(),
            sizes == sizes_of(index@),
            sizes_nonneg(sizes),
            sum_range(sizes, 0, len as int) <= u32::MAX,
            sum == sum_range(sizes, pos as int, j as int),
        decreases n - j,
    {
        let sz = index[p].2;
        proof {
            assert(sizes[p as int] == index@[p as int].2 as int);
            lemma_sum_range_split(sizes, pos as int, j as int, 1);
            assert(sum_range(sizes, p + 1, 0) == 0);
            assert(sum_range(sizes, p as int, 1) == sizes[p as int]);
            lemma_sum_range_le_total(sizes, pos as int, j + 1);
            lemma_sum_range_nonneg(sizes, pos as int, j as int);
        }
        sum = sum + sz as u32;
        p = p + 1;
        j = j + 1;
    }
    proof {
        if j < n {
            lemma_sum_range_split(sizes, pos as int, j as int, n - j);
            assert(sum_range(sizes, p as int, n - j) == 0);
        }
    }
    (sum, p)
}


/// Translates the line-level script into byte-level blocks, walking the
/// two size lists positionally.
fn process_diff_2(
    diffs: &Vec<DiffBlockN<usize>>,
    indexes_a: &Vec<HashedLine>,
    indexes_b: &Vec<HashedLine>,
) -> (r: Vec<DiffBlockN<u32>>)
    requires
        sum_range(sizes_of(indexes_a@), 0, indexes_a@.len() as int) <= u32::MAX,
        sum_range(sizes_of(indexes_b@), 0, indexes_b@.len() as int) <= u32::MAX,
        forall|i: int| 0 <= i < diffs@.len() ==> !((#[trigger] diffs@[i]) is ReplaceWithSameLength),
    ensures
        n32views(r@) == spec_process_diff_2(
            nviews(diffs@),
            sizes_of(indexes_a@),
            sizes_of(indexes_b@),
            0,
            0,
        ),
{
    let ghost sa = sizes_of(indexes_a@);
    let ghost sb = sizes_of(indexes_b@);
    let ghost script = nviews(diffs@);
    let ghost goal = spec_process_diff_2(script, sa, sb, 0, 0);
    let mut o: Vec<DiffBlockN<u32>> = Vec::new();
    let mut ia: usize = 0;
    let mut ib: usize = 0;
    let n = diffs.len();
    let mut k: usize = 0;
    proof {
        assert(script.skip(0) =~= script);
    }
    while k < n
        invariant
            k <= n,
            n == diffs@.len(),
            script == nviews(diffs@),
            sa == sizes_of(indexes_a@),
            sb == sizes_of(indexes_b@),
            goal == spec_process_diff_2(script, sa, sb, 0, 0),
            sum_range(sa, 0, sa.len() as int) <= u32::MAX,
            sum_range(sb, 0, sb.len() as int) <= u32::MAX,
            ia <= indexes_a@.len(),
            ib <= indexes_b@.len(),
            forall|i: int|
                0 <= i < diffs@.len() ==> !((#[trigger] diffs@[i]) is ReplaceWithSameLength),
            goal == n32views(o@) + spec_process_diff_2(
                script.skip(k as int),
                sa,
                sb,
                ia as int,
                ib as int,
            ),
        decreases n - k,
    {
        proof {
            assert(script.skip(k as int)[0] == nview(diffs@[k as int]));
            assert(script.skip(k as int).skip(1) =~= script.skip(k + 1));
        }
        let ghost rest_pre = spec_process_diff_2(script.skip(k as int), sa, sb, ia as int, ib as int);
        match diffs[k] {
            DiffBlockN::Skip(cnt) => {
                let (size, ia2) = consume_sizes(indexes_a, ia, cnt);
                let (_skipped, ib2) = consume_sizes(indexes_b, ib, cnt);
                ia = ia2;
                ib = ib2;
                if size != 0 {
                    let ghost prev_views = n32views(o@);
                    o.push(DiffBlockN::Skip(size));
                    proof {
                        assert(n32views(o@) =~= prev_views + seq![
                            DiffBlockN::Skip(size as int),
                        ]);
                        assert(goal =~= n32views(o@) + spec_process_diff_2(
                            script.skip(k + 1),
                            sa,
                            sb,
                            ia as int,
                            ib as int,
                        ));
                    }
                }
            },
            DiffBlockN::Add(cnt) => {
                let (size, ib2) = consume_sizes(indexes_b, ib, cnt);
                ib = ib2;
                if size != 0 {
                    let ghost prev_views = n32views(o@);
                    o.push(DiffBlockN::Add(size));
                    proof {
                        assert(n32views(o@) =~= prev_views + seq![
                            DiffBlockN::Add(size as int),
                        ]);
                        assert(goal =~= n32views(o@) + spec_process_diff_2(
                            script.skip(k + 1),
                            sa,
                            sb,
                            ia as int,
                            ib as int,
                        ));
                    }
                }
            },
            DiffBlockN::Remove(cnt) => {
                let (size, ia2) = consume_sizes(indexes_a, ia, cnt);
                ia = ia2;
                if size != 0 {
                    let ghost prev_views = n32views(o@);
                    o.push(DiffBlockN::Remove(size));
                    proof {
                        assert(n32views(o@) =~= prev_views + seq![
                            DiffBlockN::Remove(size as int),
                        ]);
                        assert(goal =~= n32views(o@) + spec_process_diff_2(
                            script.skip(k + 1),
                            sa,
                            sb,
                            ia as int,
                            ib as int,
                        ));
                    }
                }
            },
            DiffBlockN::Replace(rl, al) => {
                let (remove, ia2) = consume_sizes(indexes_a, ia, rl);
                let (add, ib2) = consume_sizes(indexes_b, ib, al);
                ia = ia2;
                ib = ib2;
                let ghost prev_views = n32views(o@);
                if remove != 0 && add != 0 {
                    if add == remove {
                        o.push(DiffBlockN::ReplaceWithSameLength(add));
                    } else {
                        o.push(DiffBlockN::Replace(remove, add));
                    }
                } else if remove != 0 {
                    o.push(DiffBlockN::Remove(remove));
                } else if add != 0 {
                    o.push(DiffBlockN::Add(add));
                }
                proof {
                    if o@.len() > prev_views.len() {
                        assert(n32views(o@) =~= prev_views + seq![n32view(o@.last())]);
                    } else {
                        assert(n32views(o@) =~= prev_views);
                    }
                    assert(goal =~= n32views(o@) + spec_process_diff_2(
                        script.skip(k + 1),
                        sa,
                        sb,
                        ia as int,
                        ib as int,
                    ));
                }
            },
            DiffBlockN::ReplaceWithSameLength(_) => {
                proof {
                    assert(false);
                }
            },
        }
        k = k + 1;
    }
    proof {
        assert(script.skip(n as int) =~= Seq::<DiffBlockN<int>>::empty());
        assert(n32views(o@) + Seq::<DiffBlockN<int>>::empty() =~= n32views(o@));
    }
    o
}


/// The digests of a file's leaves, in leaf order.
pub open spec fn digest_seq(file: Seq<u8>, leaves: Seq<EntryView>) -> Seq<Seq<char>> {
    leaves.map_values(|e: EntryView| digest_of(file.subrange(e.1 as int, e.1 + e.2)))
}

/// The byte sizes of a list of leaves.
pub open spec fn leaf_sizes(leaves: Seq<EntryView>) -> Seq<int> {
    leaves.map_values(|e: EntryView| e.2 as int)
}

/// The shape of a line digest: sixty-four hex digits.
pub open spec fn digest_like(s: Seq<char>) -> bool {
    &&& s.len() == 64
    &&& forall|k: int| 0 <= k < s.len() ==> crate::functions::is_hex_char(#[trigger] s[k])
}

/// Every leaf of the index lies inside the file.
pub open spec fn leaves_in_bounds(file: Seq<u8>, index: Seq<EntryView>) -> bool {
    forall|i: int|
        0 <= i < crate::indexes::leaves_of(index).len() ==> (#[trigger] crate::indexes::leaves_of(
            index,
        )[i]).1 + crate::indexes::leaves_of(index)[i].2 <= file.len()
}

/// The leaves' total byte size fits the wire format's four-byte field.
pub open spec fn leaf_sizes_fit(index: Seq<EntryView>) -> bool {
    sum_range(
        leaf_sizes(crate::indexes::leaves_of(index)),
        0,
        crate::indexes::leaves_of(index).len() as int,
    ) <= u32::MAX
}

/// The line-level script never holds a same-length replacement.
pub proof fn lemma_pd_no_rwsl(cs: Seq<Change>)
    ensures
        forall|i: int|
            0 <= i < spec_process_diff(cs).len() ==> !((#[trigger] spec_process_diff(cs)[i])
                is ReplaceWithSameLength),
    decreases cs.len(),
{
    if cs.len() > 0 {
        lemma_pd_no_rwsl(cs.drop_last());
    }
}

/// The bytes an added block carries: the next `n` bytes of the edited
/// file after `fp`, clamped to the end of the file.
pub open spec fn slice_at(file: Seq<u8>, fp: int, n: int) -> Seq<u8> {
    let p = if fp < 0 {
        0int
    } else {
        min(fp, file.len() as int)
    };
    file.skip(p).take(min(n, file.len() - p))
}

/// Digest lists survive the join-and-split round the line diff applies.
proof fn lemma_digest_lines(xs: Seq<Seq<char>>)
    requires
        forall|i: int| 0 <= i < xs.len() ==> digest_like(#[trigger] xs[i]),
    ensures
        split_text(join_nl(xs)) == xs,
{
    if xs.len() == 0 {
        assert(join_nl(xs) == Seq::<char>::empty());
        assert(split_text(join_nl(xs)) =~= xs);
    } else {
        assert forall|i: int| 0 <= i < xs.len() implies nl_free(#[trigger] xs[i]) by {
            assert forall|k: int| 0 <= k < xs[i].len() implies xs[i][k] != '\n' by {
                assert(crate::functions::is_hex_char(xs[i][k]));
            }
        }
        lemma_lines_join(xs);
        if join_nl(xs).len() == 0 {
            assert(lines_of(join_nl(xs)) == seq![Seq::<char>::empty()]);
            assert(xs[0].len() == 64);
            assert(false);
        }
    }
}

/// Streams the byte-level blocks of the diff between two indexed files.
/// The block sizes are fixed when the iterator is built; each data-carrying
/// block reads its bytes from the edited file at the tracked offset.
pub struct DiffIterator {
    file: ReadSlice,
    diff: Vec<DiffBlockN<u32>>,
    pos: usize,
    file_pos: u64,
}

impl DiffIterator {
    /// The bytes of the edited file.
    pub closed spec fn file_view(&self) -> Seq<u8> {
        self.file@
    }

    /// The byte-level script.
    pub closed spec fn blocks(&self) -> Seq<DiffBlockN<u32>> {
        self.diff@
    }

    /// How many blocks have been yielded.
    pub closed spec fn spec_pos(&self) -> int {
        self.pos as int
    }

    /// The current offset into the edited file.
    pub closed spec fn spec_file_pos(&self) -> int {
        self.file_pos as int
    }

    #[verifier::type_invariant]
    spec fn type_inv(self) -> bool {
        &&& self.file_pos <= self.file@.len()
        &&& self.pos <= self.diff.len()
    }

    /// Builds the iterator for two files with their indexes: hashes the
    /// leaves of both, diffs the digests line by line, and translates the
    /// change runs into a byte-level script over the leaf sizes. Fails
    /// when a leaf reaches past its file, when a file's leaves together
    /// exceed the wire format's size field, or when a line count cannot
    /// be represented.
    pub fn new(file_a: Vec<u8>, index_a: Indexes, file_b: Vec<u8>, index_b: Indexes) -> (r: Result<
        Self,
        String,
    >)
        ensures
            r is Ok <==> {
                &&& leaves_in_bounds(file_a@, index_a@)
                &&& leaves_in_bounds(file_b@, index_b@)
                &&& leaf_sizes_fit(index_a@)
                &&& leaf_sizes_fit(index_b@)
            },
            r matches Ok(it) ==> {
                &&& it.file_view() == file_b@
                &&& it.spec_pos() == 0
                &&& it.spec_file_pos() == 0
                &&& script_a_weight(n32views(it.blocks())) == sum_range(
                    leaf_sizes(crate::indexes::leaves_of(index_a@)),
                    0,
                    crate::indexes::leaves_of(index_a@).len() as int,
                )
                &&& (digest_seq(file_a@, crate::indexes::leaves_of(index_a@)) == digest_seq(
                    file_b@,
                    crate::indexes::leaves_of(index_b@),
                ) ==> forall|i: int|
                    0 <= i < it.blocks().len() ==> (#[trigger] it.blocks()[i]) is Skip)
                &&& exists|cs: Seq<Change>|
                    {
                        &&& src_lines(cs) == split_text(
                            join_nl(digest_seq(file_a@, crate::indexes::leaves_of(index_a@))),
                        )
                        &&& dst_lines(cs) == split_text(
                            join_nl(digest_seq(file_b@, crate::indexes::leaves_of(index_b@))),
                        )
                        &&& aligned_runs(
                            cs,
                            digest_seq(file_a@, crate::indexes::leaves_of(index_a@)),
                            digest_seq(file_b@, crate::indexes::leaves_of(index_b@)),
                            0,
                            0,
                        )
                        &&& n32views(it.blocks()) == spec_process_diff_2(
                            spec_process_diff(cs),
                            leaf_sizes(crate::indexes::leaves_of(index_a@)),
                            leaf_sizes(crate::indexes::leaves_of(index_b@)),
                            0,
                            0,
                        )
                    }
            },
    {
        let ghost fa = file_a@;
        let ghost fb = file_b@;
        let ghost goal_leaves_a = crate::indexes::leaves_of(index_a@);
        let ghost goal_leaves_b = crate::indexes::leaves_of(index_b@);
        let mut it_a = match LinesWithHashIterator::new(file_a, index_a) {
            Ok(it) => it,
            Err(e) => {
                return Err(e);
            },
        };
        let (ind_a, digests_a) = collect_lines(&mut it_a);
        let mut it_b = match LinesWithHashIterator::new(file_b, index_b) {
            Ok(it) => it,
            Err(e) => {
                return Err(e);
            },
        };
        let (ind_b, digests_b) = collect_lines(&mut it_b);
        let file_b_bytes = it_b.get_read();
        proof {
            assert(sizes_of(ind_a@) =~= leaf_sizes(goal_leaves_a));
            assert(sizes_of(ind_b@) =~= leaf_sizes(goal_leaves_b));
        }
        if !sizes_fit(&ind_a) || !sizes_fit(&ind_b) {
            return Err("total line size exceeds the wire format's field".to_owned());
        }
        let la = digests_a.len();
        let lb = digests_b.len();
        let ghost dviews_a = digests_a@.map_values(|s: String| s@);
        let ghost dviews_b = digests_b@.map_values(|s: String| s@);
        proof {
            assert(dviews_a =~= digest_seq(fa, goal_leaves_a));
            assert(dviews_b =~= digest_seq(fb, goal_leaves_b));
            assert forall|i: int| 0 <= i < dviews_a.len() implies digest_like(
                #[trigger] dviews_a[i],
            ) by {
                assert(dviews_a[i] == digests_a@[i]@);
            }
            assert forall|i: int| 0 <= i < dviews_b.len() implies digest_like(
                #[trigger] dviews_b[i],
            ) by {
                assert(dviews_b[i] == digests_b@[i]@);
            }
            lemma_digest_lines(dviews_a);
            lemma_digest_lines(dviews_b);
        }
        let changes = changeset_of_lines(&digests_a, &digests_b);
        proof {
            let cs = changes@;
            assert(src_lines(cs) == dviews_a);
            assert(dst_lines(cs) == dviews_b);
            assert(dviews_a.len() == la);
            assert(dviews_b.len() == lb);
            assert forall|i: int| 0 <= i <= cs.len() implies script_vals_ok(
                #[trigger] spec_process_diff(cs.take(i)),
            ) by {
                lemma_pd_vals_bounded(cs.take(i));
                lemma_lines_prefix_len(cs, i);
                lemma_pd_no_rwsl(cs.take(i));
                let sp = spec_process_diff(cs.take(i));
                assert forall|j: int|
                    0 <= j < sp.len() implies (match #[trigger] sp[j] {
                    DiffBlockN::Skip(n) => 0 <= n <= usize::MAX,
                    DiffBlockN::Add(n) => 0 <= n <= usize::MAX,
                    DiffBlockN::Remove(n) => 0 <= n <= usize::MAX,
                    DiffBlockN::Replace(m, k) => 0 <= m <= usize::MAX && 0 <= k <= usize::MAX,
                    DiffBlockN::ReplaceWithSameLength(n) => 0 <= n <= usize::MAX,
                }) by {
                    assert(!(sp[j] is ReplaceWithSameLength));
                }
            }
        }
        let script = match process_diff(&changes) {
            Ok(v) => v,
            Err(_) => {
                proof {
                    assert(false);
                }
                return Err("line count does not fit".to_owned());
            },
        };
        proof {
            lemma_pd_no_rwsl(changes@);
            assert forall|i: int| 0 <= i < script@.len() implies !((#[trigger] script@[i])
                is ReplaceWithSameLength) by {
                assert(nviews(script@)[i] == nview(script@[i]));
            }
        }
        let blocks = process_diff_2(&script, &ind_a, &ind_b);
        let r = DiffIterator {
            file: ReadSlice::new(file_b_bytes),
            diff: blocks,
            pos: 0,
            file_pos: 0,
        };
        proof {
            let cs = changes@;
            assert(src_lines(cs) == split_text(join_nl(digest_seq(fa, goal_leaves_a))));
            assert(n32views(r.blocks()) == spec_process_diff_2(
                spec_process_diff(cs),
                leaf_sizes(goal_leaves_a),
                leaf_sizes(goal_leaves_b),
                0,
                0,
            ));
            let sa = leaf_sizes(goal_leaves_a);
            let lsc = spec_process_diff(cs);
            assert(sizes_nonneg(sa)) by {
                assert(forall|i: int| 0 <= i < sa.len() ==> #[trigger] sa[i] == goal_leaves_a[i].2);
            }
            lemma_pd_vals_bounded(cs);
            lemma_pd_no_rwsl(cs);
            assert(script_nonneg(lsc) && (forall|i: int|
                0 <= i < lsc.len() ==> !((#[trigger] lsc[i]) is ReplaceWithSameLength)));
            lemma_pd2_a_weight(lsc, sa, leaf_sizes(goal_leaves_b), 0, 0);
            lemma_pd_a_count(cs);
            assert(src_lines(cs).len() == dviews_a.len());
            assert(dviews_a.len() == sa.len());
            if digest_seq(fa, goal_leaves_a) == digest_seq(fb, goal_leaves_b) {
                lemma_pd_same_only(cs);
                lemma_pd2_skip_only(lsc, sa, leaf_sizes(goal_leaves_b), 0, 0);
                assert forall|i: int| 0 <= i < r.blocks().len() implies (#[trigger] r.blocks()[i])
                    is Skip by {
                    assert(n32views(r.blocks())[i] == n32view(r.blocks()[i]));
                }
            }
        }
        Ok(r)
    }

    /// The next byte-level block, its data read from the edited file at
    /// the tracked offset; `None` when the script is exhausted.
    pub fn next_ref(&mut self) -> (r: Option<DiffBlock>)
        ensures
            final(self).file_view() == old(self).file_view(),
            final(self).blocks() == old(self).blocks(),
            0 <= final(self).spec_pos() <= final(self).blocks().len(),
            old(self).spec_pos() >= old(self).blocks().len() ==> r is None
                && final(self).spec_pos() == old(self).spec_pos()
                && final(self).spec_file_pos() == old(self).spec_file_pos(),
            0 <= old(self).spec_pos() < old(self).blocks().len() ==> {
                &&& final(self).spec_pos() == old(self).spec_pos() + 1
                &&& r matches Some(b)
                &&& b.wf()
                &&& {
                    let blk = old(self).blocks()[old(self).spec_pos()];
                    let fp = old(self).spec_file_pos();
                    let fv = old(self).file_view();
                    match blk {
                        DiffBlockN::Skip(n) => b@ == (BlockView::Skip { size: n as nat })
                            && final(self).spec_file_pos() == min(fp + n, fv.len() as int),
                        DiffBlockN::Add(n) => b@ == (BlockView::Add {
                            data: slice_at(fv, fp, n as int),
                        }) && final(self).spec_file_pos() == min(fp + n, fv.len() as int),
                        DiffBlockN::Remove(n) => b@ == (BlockView::Remove { size: n as nat })
                            && final(self).spec_file_pos() == fp,
                        DiffBlockN::Replace(rm, ad) => b@ == (BlockView::Replace {
                            remove_size: rm as nat,
                            data: slice_at(fv, fp, ad as int),
                        }) && final(self).spec_file_pos() == min(fp + ad, fv.len() as int),
                        DiffBlockN::ReplaceWithSameLength(n) => b@
                            == (BlockView::ReplaceWithSameLength {
                            data: slice_at(fv, fp, n as int),
                        }) && final(self).spec_file_pos() == min(fp + n, fv.len() as int),
                    }
                }
            },
    {
        proof {
            use_type_invariant(&*self);
        }
        if self.pos >= self.diff.len() {
            return None;
        }
        let blk = self.diff[self.pos];
        self.pos = self.pos + 1;
        let len = self.file.size();
        let cap = len - self.file_pos;
        match blk {
            DiffBlockN::Skip(size) => {
                let adv = if size as u64 > cap {
                    cap
                } else {
                    size as u64
                };
                self.file_pos = self.file_pos + adv;
                Some(DiffBlock::Skip { size })
            },
            DiffBlockN::Add(size) => {
                self.file.set_position(self.file_pos);
                let data = self.file.take_from_current(size as u64);
                proof {
                    assert(data@ =~= slice_at(old(self).file_view(), old(self).spec_file_pos(), size as int));
                }
                let adv = if size as u64 > cap {
                    cap
                } else {
                    size as u64
                };
                self.file_pos = self.file_pos + adv;
                Some(DiffBlock::Add { data })
            },
            DiffBlockN::Remove(size) => Some(DiffBlock::Remove { size }),
            DiffBlockN::Replace(remove, add) => {
                self.file.set_position(self.file_pos);
                let data = self.file.take_from_current(add as u64);
                proof {
                    assert(data@ =~= slice_at(old(self).file_view(), old(self).spec_file_pos(), add as int));
                }
                let adv = if add as u64 > cap {
                    cap
                } else {
                    add as u64
                };
                self.file_pos = self.file_pos + adv;
                Some(DiffBlock::Replace { remove_size: remove, data })
            },
            DiffBlockN::ReplaceWithSameLength(size) => {
                self.file.set_position(self.file_pos);
                let data = self.file.take_from_current(size as u64);
                proof {
                    assert(data@ =~= slice_at(old(self).file_view(), old(self).spec_file_pos(), size as int));
                }
                let adv = if size as u64 > cap {
                    cap
                } else {
                    size as u64
                };
                self.file_pos = self.file_pos + adv;
                Some(DiffBlock::ReplaceWithSameLength { data })
            },
        }
    }

    /// The wire size of the next block, advancing past it without reading
    /// any data.
    pub fn next_size(&mut self) -> (r: Option<u64>)
        ensures
            final(self).file_view() == old(self).file_view(),
            final(self).blocks() == old(self).blocks(),
            0 <= final(self).spec_pos() <= final(self).blocks().len(),
            final(self).spec_file_pos() == old(self).spec_file_pos(),
            old(self).spec_pos() >= old(self).blocks().len() ==> r is None
                && final(self).spec_pos() == old(self).spec_pos(),
            0 <= old(self).spec_pos() < old(self).blocks().len() ==> {
                &&& final(self).spec_pos() == old(self).spec_pos() + 1
                &&& (r matches Some(v) && v == match old(self).blocks()[old(self).spec_pos()] {
                    DiffBlockN::Skip(_) => 6int,
                    DiffBlockN::Add(n) => 6 + n as int,
                    DiffBlockN::Remove(_) => 6int,
                    DiffBlockN::Replace(_, a) => 10 + a as int,
                    DiffBlockN::ReplaceWithSameLength(n) => 6 + n as int,
                })
            },
    {
        proof {
            use_type_invariant(&*self);
        }
        if self.pos >= self.diff.len() {
            return None;
        }
        let blk = self.diff[self.pos];
        self.pos = self.pos + 1;
        match blk {
            DiffBlockN::Skip(_) => Some(6),
            DiffBlockN::Add(size) => Some(6 + size as u64),
            DiffBlockN::Remove(_) => Some(6),
            DiffBlockN::Replace(_, add) => Some(10 + add as u64),
            DiffBlockN::ReplaceWithSameLength(size) => Some(6 + size as u64),
        }
    }
}

/// Collects every remaining hashed line, returning the lines and their
/// digests side by side.
fn collect_lines(it: &mut LinesWithHashIterator) -> (r: (Vec<HashedLine>, Vec<String>))
    requires
        old(it).spec_pos() == 0,
    ensures
        final(it).file_view() == old(it).file_view(),
        final(it).leaves() == old(it).leaves(),
        r.0@.len() == old(it).leaves().len(),
        r.1@.len() == old(it).leaves().len(),
        forall|j: int|
            0 <= j < r.0@.len() ==> {
                let e = old(it).leaves()[j];
                &&& ((#[trigger] r.0@[j]).0@, r.0@[j].1, r.0@[j].2) == e
                &&& r.0@[j].3@ == digest_of(old(it).file_view().subrange(e.1 as int, e.1 + e.2))
            },
        forall|j: int|
            0 <= j < r.1@.len() ==> (#[trigger] r.1@[j])@ == digest_of(
                old(it).file_view().subrange(
                    old(it).leaves()[j].1 as int,
                    old(it).leaves()[j].1 + old(it).leaves()[j].2,
                ),
            ),
        forall|j: int| 0 <= j < r.1@.len() ==> digest_like((#[trigger] r.1@[j])@),
{
    let mut lines: Vec<HashedLine> = Vec::new();
    let mut digests: Vec<String> = Vec::new();
    loop
        invariant
            it.file_view() == old(it).file_view(),
            it.leaves() == old(it).leaves(),
            0 <= it.spec_pos() <= it.leaves().len(),
            lines@.len() == it.spec_pos(),
            digests@.len() == it.spec_pos(),
            forall|j: int|
                0 <= j < lines@.len() ==> {
                    let e = old(it).leaves()[j];
                    &&& ((#[trigger] lines@[j]).0@, lines@[j].1, lines@[j].2) == e
                    &&& lines@[j].3@ == digest_of(
                        old(it).file_view().subrange(e.1 as int, e.1 + e.2),
                    )
                },
            forall|j: int|
                0 <= j < digests@.len() ==> (#[trigger] digests@[j])@ == digest_of(
                    old(it).file_view().subrange(
                        old(it).leaves()[j].1 as int,
                        old(it).leaves()[j].1 + old(it).leaves()[j].2,
                    ),
                ),
            forall|j: int| 0 <= j < digests@.len() ==> digest_like((#[trigger] digests@[j])@),
        decreases it.leaves().len() - it.spec_pos(),
    {
        match it.next_line() {
            Some(line) => {
                digests.push(line.3.clone());
                lines.push(line);
            },
            None => {
                return (lines, digests);
            },
        }
    }
}

/// Whether the total size of the lines fits the wire format's four-byte
/// field.
fn sizes_fit(index: &Vec<HashedLine>) -> (r: bool)
    ensures
        r == (sum_range(sizes_of(index@), 0, index@.len() as int) <= u32::MAX),
{
    let ghost sizes = sizes_of(index@);
    proof {
        assert forall|i: int| 0 <= i < sizes.len() implies #[trigger] sizes[i] >= 0 by {
            assert(sizes[i] == index@[i].2 as int);
        }
    }
    let n = index.len();
    let mut acc: u64 = 0;
    let mut j: usize = 0;
    while j < n
        invariant
            j <= n,
            n == index@.len(),
            sizes == sizes_of(index@),
            sizes_nonneg(sizes),
            acc <= u32::MAX,
            acc == sum_range(sizes, 0, j as int),
        decreases n - j,
    {
        let sz = index[j].2;
        proof {
            assert(sizes[j as int] == index@[j as int].2 as int);
            lemma_sum_range_split(sizes, 0, j as int, 1);
            assert(sum_range(sizes, j + 1, 0) == 0);
            assert(sum_range(sizes, j as int, 1) == sizes[j as int]);
        }
        if sz > (u32::MAX as u64) - acc {
            proof {
                lemma_sum_range_mono(sizes, 0, j + 1, n as int);
                lemma_sum_range_nonneg(sizes, 0, j as int);
            }
            return false;
        }
        acc = acc + sz;
        j = j + 1;
    }
    proof {
        assert(sum_range(sizes, 0, n as int) == acc);
    }
    true
}


/// The translation's emission rules, among them the preference for
/// same-length replacements: every block of the byte-level script has a
/// positive size, and a plain replacement is only emitted when its
/// removed and inserted sizes differ.
pub proof fn lemma_translate_blocks(
    script: Seq<DiffBlockN<int>>,
    sa: Seq<int>,
    sb: Seq<int>,
    ia: int,
    ib: int,
)
    requires
        sizes_nonneg(sa),
        sizes_nonneg(sb),
    ensures
        forall|i: int|
            0 <= i < spec_process_diff_2(script, sa, sb, ia, ib).len()
                ==> match #[trigger] spec_process_diff_2(script, sa, sb, ia, ib)[i] {
                DiffBlockN::Skip(n) => n >= 1,
                DiffBlockN::Add(n) => n >= 1,
                DiffBlockN::Remove(n) => n >= 1,
                DiffBlockN::Replace(r, a) => r >= 1 && a >= 1 && r != a,
                DiffBlockN::ReplaceWithSameLength(n) => n >= 1,
            },
    decreases script.len(),
{
    if script.len() > 0 {
        let out = spec_process_diff_2(script, sa, sb, ia, ib);
        match script[0] {
            DiffBlockN::Skip(n) => {
                lemma_sum_range_nonneg(sa, ia, n);
                lemma_translate_blocks(script.skip(1), sa, sb, advance(sa, ia, n), advance(sb, ib, n));
            },
            DiffBlockN::Add(n) => {
                lemma_sum_range_nonneg(sb, ib, n);
                lemma_translate_blocks(script.skip(1), sa, sb, ia, advance(sb, ib, n));
            },
            DiffBlockN::Remove(n) => {
                lemma_sum_range_nonneg(sa, ia, n);
                lemma_translate_blocks(script.skip(1), sa, sb, advance(sa, ia, n), ib);
            },
            DiffBlockN::Replace(rl, al) => {
                lemma_sum_range_nonneg(sa, ia, rl);
                lemma_sum_range_nonneg(sb, ib, al);
                lemma_translate_blocks(
                    script.skip(1),
                    sa,
                    sb,
                    advance(sa, ia, rl),
                    advance(sb, ib, al),
                );
            },
            DiffBlockN::ReplaceWithSameLength(_) => {},
        }
    }
}


/// The source-side weight of a script: the bytes (or lines) it keeps or
/// drops from the first file.
pub open spec fn script_a_weight(s: Seq<DiffBlockN<int>>) -> int
    decreases s.len(),
{
    if s.len() == 0 {
        0
    } else {
        script_a_weight(s.drop_last()) + (match s.last() {
            DiffBlockN::Skip(n) => n,
            DiffBlockN::Add(_) => 0,
            DiffBlockN::Remove(n) => n,
            DiffBlockN::Replace(m, _) => m,
            DiffBlockN::ReplaceWithSameLength(n) => n,
        })
    }
}

/// Every count of a script is nonnegative.
pub open spec fn script_nonneg(s: Seq<DiffBlockN<int>>) -> bool {
    forall|i: int|
        0 <= i < s.len() ==> match #[trigger] s[i] {
            DiffBlockN::Skip(n) => n >= 0,
            DiffBlockN::Add(n) => n >= 0,
            DiffBlockN::Remove(n) => n >= 0,
            DiffBlockN::Replace(m, k) => m >= 0 && k >= 0,
            DiffBlockN::ReplaceWithSameLength(n) => n >= 0,
        }
}

/// A nonnegative script has a nonnegative source-side weight.
proof fn lemma_a_weight_nonneg(s: Seq<DiffBlockN<int>>)
    requires
        script_nonneg(s),
    ensures
        script_a_weight(s) >= 0,
    decreases s.len(),
{
    if s.len() > 0 {
        assert(script_nonneg(s.drop_last())) by {
            assert(forall|i: int|
                0 <= i < s.drop_last().len() ==> s.drop_last()[i] == #[trigger] s[i]);
        }
        lemma_a_weight_nonneg(s.drop_last());
        assert(s.last() == s[s.len() - 1]);
    }
}

/// The line-level script covers the first file's lines exactly: its
/// source-side counts sum to the lines the change script consumes there.
proof fn lemma_pd_a_count(cs: Seq<Change>)
    ensures
        script_a_weight(spec_process_diff(cs)) == src_lines(cs).len(),
    decreases cs.len(),
{
    if cs.len() == 0 {
        assert(spec_process_diff(cs) == seq![DiffBlockN::Skip(0int)]);
        assert(seq![DiffBlockN::Skip(0int)].drop_last() =~= Seq::<DiffBlockN<int>>::empty());
        assert(script_a_weight(Seq::<DiffBlockN<int>>::empty()) == 0);
        assert(seq![DiffBlockN::Skip(0int)].last() == DiffBlockN::Skip(0int));
        assert(src_lines(cs).len() == 0);
    } else {
        lemma_pd_a_count(cs.drop_last());
        lemma_src_lines_snoc(cs);
        let prev = spec_process_diff(cs.drop_last());
        match cs.last() {
            Change::Same(x) => {
                let k = lines_of(x@).len() as int;
                if prev.len() > 0 && prev.last() is Skip {
                    let upd = prev.update(prev.len() - 1, DiffBlockN::Skip(prev.last()->Skip_0 + k));
                    assert(upd.drop_last() =~= prev.drop_last());
                    assert(upd.last() == DiffBlockN::Skip(prev.last()->Skip_0 + k));
                    assert(script_a_weight(prev) == script_a_weight(prev.drop_last())
                        + prev.last()->Skip_0);
                } else {
                    let pushed = prev.push(DiffBlockN::Skip(k));
                    assert(pushed.drop_last() =~= prev);
                    assert(pushed.last() == DiffBlockN::Skip(k));
                }
            },
            Change::Rem(x) => {
                let k = lines_of(x@).len() as int;
                let pushed = prev.push(DiffBlockN::Remove(k));
                assert(pushed.drop_last() =~= prev);
                assert(pushed.last() == DiffBlockN::Remove(k));
            },
            Change::Add(x) => {
                let k = lines_of(x@).len() as int;
                if prev.len() > 0 && prev.last() is Remove {
                    let upd = prev.update(
                        prev.len() - 1,
                        DiffBlockN::Replace(prev.last()->Remove_0, k),
                    );
                    assert(upd.drop_last() =~= prev.drop_last());
                    assert(upd.last() == DiffBlockN::Replace(prev.last()->Remove_0, k));
                    assert(script_a_weight(prev) == script_a_weight(prev.drop_last())
                        + prev.last()->Remove_0);
                } else {
                    let pushed = prev.push(DiffBlockN::Add(k));
                    assert(pushed.drop_last() =~= prev);
                    assert(pushed.last() == DiffBlockN::Add(k));
                }
            },
        }
    }
}

/// Prepending one block to a script adds its weight at the front.
proof fn lemma_a_weight_cons(b: DiffBlockN<int>, s: Seq<DiffBlockN<int>>)
    ensures
        script_a_weight(seq![b] + s) == script_a_weight(s) + (match b {
            DiffBlockN::Skip(n) => n,
            DiffBlockN::Add(_) => 0,
            DiffBlockN::Remove(n) => n,
            DiffBlockN::Replace(m, _) => m,
            DiffBlockN::ReplaceWithSameLength(n) => n,
        }),
    decreases s.len(),
{
    if s.len() == 0 {
        assert(seq![b] + s =~= seq![b]);
        assert(seq![b].drop_last() =~= Seq::<DiffBlockN<int>>::empty());
        assert(script_a_weight(Seq::<DiffBlockN<int>>::empty()) == 0);
        assert(seq![b].last() == b);
        assert(script_a_weight(s) == 0);
    } else {
        lemma_a_weight_cons(b, s.drop_last());
        assert((seq![b] + s).drop_last() =~= seq![b] + s.drop_last());
        assert((seq![b] + s).last() == s.last());
    }
}

/// The byte-level translation conserves the source side: its source
/// weights sum to the sizes it consumed from the first file's list.
proof fn lemma_pd2_a_weight(
    script: Seq<DiffBlockN<int>>,
    sa: Seq<int>,
    sb: Seq<int>,
    ia: int,
    ib: int,
)
    requires
        script_nonneg(script),
        sizes_nonneg(sa),
        0 <= ia,
        forall|i: int| 0 <= i < script.len() ==> !((#[trigger] script[i]) is ReplaceWithSameLength),
    ensures
        script_a_weight(spec_process_diff_2(script, sa, sb, ia, ib)) == sum_range(
            sa,
            ia,
            script_a_weight(script),
        ),
    decreases script.len(),
{
    if script.len() == 0 {
    } else {
        let tail = script.skip(1);
        assert(script_nonneg(tail) && (forall|i: int|
            0 <= i < tail.len() ==> !((#[trigger] tail[i]) is ReplaceWithSameLength))) by {
            assert(forall|i: int| 0 <= i < tail.len() ==> tail[i] == #[trigger] script[i + 1]);
        }
        lemma_a_weight_nonneg(tail);
        assert(script_a_weight(script) == script_a_weight(tail) + (match script[0] {
            DiffBlockN::Skip(n) => n,
            DiffBlockN::Add(_) => 0,
            DiffBlockN::Remove(n) => n,
            DiffBlockN::Replace(m, _) => m,
            DiffBlockN::ReplaceWithSameLength(n) => n,
        })) by {
            assert(seq![script[0]] + tail =~= script);
            lemma_a_weight_cons(script[0], tail);
        }
        match script[0] {
            DiffBlockN::Skip(n) => {
                let size = sum_range(sa, ia, n);
                let ia2 = advance(sa, ia, n);
                lemma_pd2_a_weight(tail, sa, sb, ia2, advance(sb, ib, n));
                lemma_sum_range_split(sa, ia, n, script_a_weight(tail));
                lemma_sum_range_same_from(sa, ia + n, ia2, script_a_weight(tail));
                let rest = spec_process_diff_2(tail, sa, sb, ia2, advance(sb, ib, n));
                if size != 0 {
                    lemma_a_weight_cons(DiffBlockN::Skip(size), rest);
                    assert(seq![DiffBlockN::Skip(size)] + rest =~= spec_process_diff_2(
                        script,
                        sa,
                        sb,
                        ia,
                        ib,
                    ));
                }
            },
            DiffBlockN::Add(n) => {
                let size = sum_range(sb, ib, n);
                lemma_pd2_a_weight(tail, sa, sb, ia, advance(sb, ib, n));
                let rest = spec_process_diff_2(tail, sa, sb, ia, advance(sb, ib, n));
                if size != 0 {
                    lemma_a_weight_cons(DiffBlockN::Add(size), rest);
                    assert(seq![DiffBlockN::Add(size)] + rest =~= spec_process_diff_2(
                        script,
                        sa,
                        sb,
                        ia,
                        ib,
                    ));
                }
            },
            DiffBlockN::Remove(n) => {
                let size = sum_range(sa, ia, n);
                let ia2 = advance(sa, ia, n);
                lemma_pd2_a_weight(tail, sa, sb, ia2, ib);
                lemma_sum_range_split(sa, ia, n, script_a_weight(tail));
                lemma_sum_range_same_from(sa, ia + n, ia2, script_a_weight(tail));
                let rest = spec_process_diff_2(tail, sa, sb, ia2, ib);
                if size != 0 {
                    lemma_a_weight_cons(DiffBlockN::Remove(size), rest);
                    assert(seq![DiffBlockN::Remove(size)] + rest =~= spec_process_diff_2(
                        script,
                        sa,
                        sb,
                        ia,
                        ib,
                    ));
                }
            },
            DiffBlockN::Replace(rl, al) => {
                let rem = sum_range(sa, ia, rl);
                let ad = sum_range(sb, ib, al);
                let ia2 = advance(sa, ia, rl);
                let ib2 = advance(sb, ib, al);
                lemma_pd2_a_weight(tail, sa, sb, ia2, ib2);
                lemma_sum_range_split(sa, ia, rl, script_a_weight(tail));
                lemma_sum_range_same_from(sa, ia + rl, ia2, script_a_weight(tail));
                let rest = spec_process_diff_2(tail, sa, sb, ia2, ib2);
                if rem != 0 && ad != 0 {
                    if ad == rem {
                        lemma_a_weight_cons(DiffBlockN::ReplaceWithSameLength(ad), rest);
                        assert(seq![DiffBlockN::ReplaceWithSameLength(ad)] + rest
                            =~= spec_process_diff_2(script, sa, sb, ia, ib));
                    } else {
                        lemma_a_weight_cons(DiffBlockN::Replace(rem, ad), rest);
                        assert(seq![DiffBlockN::Replace(rem, ad)] + rest =~= spec_process_diff_2(
                            script,
                            sa,
                            sb,
                            ia,
                            ib,
                        ));
                    }
                } else if rem != 0 {
                    lemma_a_weight_cons(DiffBlockN::Remove(rem), rest);
                    assert(seq![DiffBlockN::Remove(rem)] + rest =~= spec_process_diff_2(
                        script,
                        sa,
                        sb,
                        ia,
                        ib,
                    ));
                } else if ad != 0 {
                    lemma_a_weight_cons(DiffBlockN::Add(ad), rest);
                    assert(seq![DiffBlockN::Add(ad)] + rest =~= spec_process_diff_2(
                        script,
                        sa,
                        sb,
                        ia,
                        ib,
                    ));
                    lemma_sum_range_nonneg(sa, ia, rl);
                }
            },
            DiffBlockN::ReplaceWithSameLength(_) => {
                assert(false);
            },
        }
    }
}

/// Sums over `n` entries agree from a position at or past the end.
proof fn lemma_sum_range_same_from(s: Seq<int>, from1: int, from2: int, n: int)
    requires
        from1 == from2 || (from1 >= s.len() && from2 >= s.len()),
    ensures
        sum_range(s, from1, n) == sum_range(s, from2, n),
{
    if from1 != from2 {
        assert(sum_range(s, from1, n) == 0);
        assert(sum_range(s, from2, n) == 0);
    }
}


/// A change script of at most one same-run translates to keep-only
/// blocks at the line level.
proof fn lemma_pd_same_only(cs: Seq<Change>)
    requires
        cs.len() <= 1,
        cs.len() == 1 ==> cs[0] is Same,
    ensures
        forall|i: int|
            0 <= i < spec_process_diff(cs).len() ==> (#[trigger] spec_process_diff(cs)[i]) is Skip,
{
    reveal_with_fuel(spec_process_diff, 3);
    if cs.len() == 1 {
        assert(cs.drop_last() =~= Seq::<Change>::empty());
        let prev = spec_process_diff(Seq::<Change>::empty());
        assert(prev == seq![DiffBlockN::Skip(0int)]);
        let out = spec_process_diff(cs);
        assert(out == pd_step(prev, cs.last()));
        assert forall|i: int| 0 <= i < out.len() implies (#[trigger] out[i]) is Skip by {
            assert(out.len() == 1);
        }
    }
}

/// A keep-only line script translates to keep-only byte blocks.
proof fn lemma_pd2_skip_only(
    script: Seq<DiffBlockN<int>>,
    sa: Seq<int>,
    sb: Seq<int>,
    ia: int,
    ib: int,
)
    requires
        forall|i: int| 0 <= i < script.len() ==> (#[trigger] script[i]) is Skip,
    ensures
        forall|i: int|
            0 <= i < spec_process_diff_2(script, sa, sb, ia, ib).len() ==> (
            #[trigger] spec_process_diff_2(script, sa, sb, ia, ib)[i]) is Skip,
    decreases script.len(),
{
    if script.len() > 0 {
        let tail = script.skip(1);
        assert(forall|i: int| 0 <= i < tail.len() ==> tail[i] == #[trigger] script[i + 1]);
        let n = script[0]->Skip_0;
        let ia2 = advance(sa, ia, n);
        let ib2 = advance(sb, ib, n);
        lemma_pd2_skip_only(tail, sa, sb, ia2, ib2);
        let rest = spec_process_diff_2(tail, sa, sb, ia2, ib2);
        let out = spec_process_diff_2(script, sa, sb, ia, ib);
        let size = sum_range(sa, ia, n);
        assert forall|i: int| 0 <= i < out.len() implies (#[trigger] out[i]) is Skip by {
            if size != 0 {
                assert(out == seq![DiffBlockN::Skip(size)] + rest);
                if i > 0 {
                    assert(out[i] == rest[i - 1]);
                }
            } else {
                assert(out == rest);
            }
        }
    }
}

} // verus!
