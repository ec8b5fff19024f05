//! The index of a binary: its ordered, labeled lines.
//!
//! An index lists `(label, start, size)` entries in insertion order.
//! Labels are unique and may be hierarchical, with `/` as the separator;
//! the leaves view keeps only the deepest label of each ancestor chain,
//! and is what the diff engine hashes and compares.

use vstd::prelude::*;
use vstd::string::*;
use crate::functions::str_eq;

verus! {

/// One index entry as the specification sees it: label, start, size.
pub type EntryView = (Seq<char>, u64, u64);

/// The first entry carrying `label`, or `-1` when there is none.
pub open spec fn first_match(s: Seq<EntryView>, label: Seq<char>) -> int
    decreases s.len(),
{
    if s.len() == 0 {
        -1
    } else if s[0].0 == label {
        0
    } else {
        let r = first_match(s.skip(1), label);
        if r == -1 {
            -1
        } else {
            r + 1
        }
    }
}

/// Whether some entry carries `label`.
pub open spec fn spec_has(s: Seq<EntryView>, label: Seq<char>) -> bool {
    exists|i: int| 0 <= i < s.len() && s[i].0 == label
}

/// What `first_match` finds: the first entry with the label, if any.
pub proof fn lemma_first_match(s: Seq<EntryView>, label: Seq<char>)
    ensures
        spec_has(s, label) ==> {
            &&& 0 <= first_match(s, label) < s.len()
            &&& s[first_match(s, label)].0 == label
            &&& forall|j: int| 0 <= j < first_match(s, label) ==> s[j].0 != label
        },
        !spec_has(s, label) ==> first_match(s, label) == -1,
    decreases s.len(),
{
    if s.len() == 0 {
    } else if s[0].0 == label {
    } else {
        lemma_first_match(s.skip(1), label);
        assert forall|i: int| 0 <= i < s.len() && s[i].0 == label implies spec_has(
            s.skip(1),
            label,
        ) by {
            assert(s.skip(1)[i - 1] == s[i]);
        }
        if spec_has(s.skip(1), label) {
            let r = first_match(s.skip(1), label);
            assert(s[r + 1] == s.skip(1)[r]);
            assert forall|j: int| 0 <= j < r + 1 implies s[j].0 != label by {
                if j > 0 {
                    assert(s.skip(1)[j - 1] == s[j]);
                }
            }
        }
    }
}

/// The position of the last `/` in a label, or `-1` when there is none.
pub open spec fn last_slash_idx(s: Seq<char>) -> int
    decreases s.len(),
{
    if s.len() == 0 {
        -1
    } else if s[s.len() - 1] == '/' {
        s.len() - 1
    } else {
        last_slash_idx(s.drop_last())
    }
}

/// A label's parent is the text before its last separator; a label whose
/// parent would be empty counts as a root.
pub open spec fn has_parent(s: Seq<char>) -> bool {
    last_slash_idx(s) >= 1
}

/// The text before the last separator.
pub open spec fn parent_of(s: Seq<char>) -> Seq<char> {
    s.take(last_slash_idx(s))
}

/// The last slash is a slash, and nothing after it is one.
pub proof fn lemma_last_slash(s: Seq<char>)
    ensures
        last_slash_idx(s) >= -1,
        last_slash_idx(s) >= 0 ==> {
            &&& last_slash_idx(s) < s.len()
            &&& s[last_slash_idx(s)] == '/'
            &&& forall|j: int| last_slash_idx(s) < j < s.len() ==> s[j] != '/'
        },
        last_slash_idx(s) < 0 ==> forall|j: int| 0 <= j < s.len() ==> s[j] != '/',
    decreases s.len(),
{
    if s.len() == 0 {
    } else if s[s.len() - 1] == '/' {
    } else {
        lemma_last_slash(s.drop_last());
        assert(forall|j: int| 0 <= j < s.len() - 1 ==> s.drop_last()[j] == s[j]);
    }
}

/// The first label equal to `l`, or `-1`.
pub open spec fn first_label(s: Seq<Seq<char>>, l: Seq<char>) -> int
    decreases s.len(),
{
    if s.len() == 0 {
        -1
    } else if s[0] == l {
        0
    } else {
        let r = first_label(s.skip(1), l);
        if r == -1 {
            -1
        } else {
            r + 1
        }
    }
}

/// What `first_label` finds.
pub proof fn lemma_first_label(s: Seq<Seq<char>>, l: Seq<char>)
    ensures
        (exists|i: int| 0 <= i < s.len() && s[i] == l) ==> {
            &&& 0 <= first_label(s, l) < s.len()
            &&& s[first_label(s, l)] == l
            &&& forall|j: int| 0 <= j < first_label(s, l) ==> s[j] != l
        },
        !(exists|i: int| 0 <= i < s.len() && s[i] == l) ==> first_label(s, l) == -1,
    decreases s.len(),
{
    if s.len() == 0 {
    } else if s[0] == l {
    } else {
        lemma_first_label(s.skip(1), l);
        assert forall|i: int| 0 <= i < s.len() && s[i] == l implies (exists|k: int|
            0 <= k < s.skip(1).len() && s.skip(1)[k] == l) by {
            assert(s.skip(1)[i - 1] == s[i]);
        }
        if exists|k: int| 0 <= k < s.skip(1).len() && s.skip(1)[k] == l {
            let r = first_label(s.skip(1), l);
            assert(s[r + 1] == s.skip(1)[r]);
            assert forall|j: int| 0 <= j < r + 1 implies s[j] != l by {
                if j > 0 {
                    assert(s.skip(1)[j - 1] == s[j]);
                }
            }
        }
    }
}

/// One step of the leaves fold: a new label evicts its parent from the
/// kept set, if the parent is there, and is kept itself.
pub open spec fn leaves_step(kept: Seq<Seq<char>>, l: Seq<char>) -> Seq<Seq<char>> {
    if has_parent(l) && first_label(kept, parent_of(l)) >= 0 {
        kept.remove(first_label(kept, parent_of(l))).push(l)
    } else {
        kept.push(l)
    }
}

/// The labels that survive the leaves derivation, in order.
pub open spec fn leaves_labels(labels: Seq<Seq<char>>) -> Seq<Seq<char>>
    decreases labels.len(),
{
    if labels.len() == 0 {
        Seq::empty()
    } else {
        leaves_step(leaves_labels(labels.drop_last()), labels.last())
    }
}

/// The leaves view of an index: the surviving labels, each with the
/// start and size of its first entry.
pub open spec fn leaves_of(entries: Seq<EntryView>) -> Seq<EntryView> {
    leaves_labels(entries.map_values(|e: EntryView| e.0)).map_values(
        |l: Seq<char>|
            {
                let i = first_match(entries, l);
                (l, entries[i].1, entries[i].2)
            },
    )
}

/// An index: ordered `(label, start, size)` entries with unique labels,
/// and a cursor for iteration.
#[derive(Debug, Clone, PartialEq, Eq)]
pub struct Indexes {
    order: Vec<(String, u64, u64)>,
    pos: usize,
}

impl View for Indexes {
    type V = Seq<EntryView>;

    closed spec fn view(&self) -> Seq<EntryView> {
        self.order@.map_values(|e: (String, u64, u64)| (e.0@, e.1, e.2))
    }
}

impl Indexes {
    /// The iteration cursor.
    pub closed spec fn spec_pos(&self) -> int {
        self.pos as int
    }

    /// Labels are unique within an index.
    pub open spec fn labels_unique(s: Seq<EntryView>) -> bool {
        forall|i: int, j: int| 0 <= i < j < s.len() ==> (#[trigger] s[i]).0 != (#[trigger] s[j]).0
    }

    /// An empty index.
    pub fn new() -> (r: Self)
        ensures
            r@ == Seq::<EntryView>::empty(),
            r.spec_pos() == 0,
    {
        let r = Indexes { order: Vec::new(), pos: 0 };
        proof {
            assert(r@ =~= Seq::<EntryView>::empty());
        }
        r
    }

    /// Appends an entry. The label must not be in the index yet.
    pub fn insert(&mut self, label: String, start: u64, size: u64)
        requires
            !spec_has(old(self)@, label@),
        ensures
            final(self)@ == old(self)@.push((label@, start, size)),
            final(self).spec_pos() == old(self).spec_pos(),
    {
        self.order.push((label, start, size));
        proof {
            assert(final(self)@ =~= old(self)@.push((label@, start, size)));
        }
    }

    /// Whether the index holds an entry with this label.
    pub fn has(&self, label: &str) -> (r: bool)
        ensures
            r == spec_has(self@, label@),
    {
        let n = self.order.len();
        let mut i: usize = 0;
        while i < n
            invariant
                i <= n,
                n == self@.len(),
                forall|j: int| 0 <= j < i ==> (#[trigger] self@[j]).0 != label@,
            decreases n - i,
        {
            if str_eq(self.order[i].0.as_str(), label) {
                proof {
                    assert(self@[i as int].0 == label@);
                }
                return true;
            }
            i = i + 1;
        }
        false
    }

    /// The start and size of the first entry with this label.
    pub fn get(&self, label: &str) -> (r: Option<(u64, u64)>)
        ensures
            spec_has(self@, label@) ==> {
                let i = first_match(self@, label@);
                r == Some((self@[i].1, self@[i].2))
            },
            !spec_has(self@, label@) ==> r is None,
    {
        proof {
            lemma_first_match(self@, label@);
        }
        let n = self.order.len();
        let mut i: usize = 0;
        while i < n
            invariant
                i <= n,
                n == self@.len(),
                forall|j: int| 0 <= j < i ==> (#[trigger] self@[j]).0 != label@,
            decreases n - i,
        {
            if str_eq(self.order[i].0.as_str(), label) {
                proof {
                    assert(self@[i as int].0 == label@);
                    assert(first_match(self@, label@) == i);
                }
                return Some((self.order[i].1, self.order[i].2));
            }
            i = i + 1;
        }
        None
    }

    /// Removes the first entry with this label. The cursor steps back when
    /// an entry at or before it goes away, and reports whether anything
    /// was removed.
    pub fn remove(&mut self, label: &str) -> (r: bool)
        ensures
            !spec_has(old(self)@, label@) ==> {
                &&& r == false
                &&& final(self)@ == old(self)@
                &&& final(self).spec_pos() == old(self).spec_pos()
            },
            spec_has(old(self)@, label@) ==> {
                &&& r == true
                &&& final(self)@ == old(self)@.remove(first_match(old(self)@, label@))
                &&& final(self).spec_pos() == (if first_match(old(self)@, label@) <= old(
                    self,
                ).spec_pos() && old(self).spec_pos() > 0 {
                    old(self).spec_pos() - 1
                } else {
                    old(self).spec_pos()
                })
            },
    {
        proof {
            lemma_first_match(old(self)@, label@);
        }
        let n = self.order.len();
        let mut i: usize = 0;
        while i < n
            invariant
                i <= n,
                n == self@.len(),
                *self == *old(self),
                forall|j: int| 0 <= j < i ==> (#[trigger] self@[j]).0 != label@,
            decreases n - i,
        {
            if str_eq(self.order[i].0.as_str(), label) {
                proof {
                    assert(old(self)@[i as int].0 == label@);
                    assert(first_match(old(self)@, label@) == i);
                }
                self.order.remove(i);
                if i <= self.pos && self.pos > 0 {
                    self.pos = self.pos - 1;
                }
                proof {
                    assert(self@ =~= old(self)@.remove(i as int));
                }
                return true;
            }
            i = i + 1;
        }
        false
    }

    /// The next entry under the cursor, advancing it.
    pub fn next(&mut self) -> (r: Option<(String, u64, u64)>)
        ensures
            final(self)@ == old(self)@,
            old(self).spec_pos() >= old(self)@.len() ==> r is None && final(self).spec_pos()
                == old(self).spec_pos(),
            0 <= old(self).spec_pos() < old(self)@.len() ==> {
                &&& (r matches Some(e) && (e.0@, e.1, e.2) == old(self)@[old(self).spec_pos()])
                &&& final(self).spec_pos() == old(self).spec_pos() + 1
            },
    {
        if self.pos >= self.order.len() {
            return None;
        }
        let label = self.order[self.pos].0.clone();
        let start = self.order[self.pos].1;
        let size = self.order[self.pos].2;
        self.pos = self.pos + 1;
        Some((label, start, size))
    }

    /// How many entries the index holds.
    pub fn len(&self) -> (r: usize)
        ensures
            r == self@.len(),
    {
        self.order.len()
    }

    /// The leaves view: for each chain of ancestor and descendant labels,
    /// only the deepest survives, with its first entry's start and size.
    /// Walking the labels exhausts this index's cursor.
    pub fn get_ends(&mut self) -> (r: Self)
        ensures
            final(self)@ == old(self)@,
            final(self).spec_pos() == old(self)@.len(),
            r@ == leaves_of(old(self)@),
            r.spec_pos() == 0,
    {
        let ghost entries = self@;
        let ghost labels = entries.map_values(|e: EntryView| e.0);
        let n = self.order.len();
        let mut set: Vec<String> = Vec::new();
        let mut i: usize = 0;
        while i < n
            invariant
                i <= n,
                n == entries.len(),
                *self == *old(self),
                self@ == entries,
                labels == entries.map_values(|e: EntryView| e.0),
                set@.map_values(|x: String| x@) == leaves_labels(labels.take(i as int)),
            decreases n - i,
        {
            let label = self.order[i].0.clone();
            let ghost pre = set@.map_values(|x: String| x@);
            proof {
                assert(labels.take(i + 1).drop_last() =~= labels.take(i as int));
                assert(labels.take(i + 1).last() == label@);
            }
            match last_slash(label.as_str()) {
                Some(idx) => {
                    if idx > 0 {
                        let parent = label.as_str().substring_char(0, idx).to_owned();
                        proof {
                            assert(parent@ =~= parent_of(label@));
                            lemma_first_label(pre, parent@);
                        }
                        match position_of(&set, parent.as_str()) {
                            Some(k) => {
                                set.remove(k);
                                proof {
                                    assert(set@.map_values(|x: String| x@) =~= pre.remove(
                                        k as int,
                                    ));
                                }
                            },
                            None => {},
                        }
                    }
                },
                None => {},
            }
            set.push(label);
            proof {
                assert(set@.map_values(|x: String| x@) =~= leaves_labels(labels.take(i + 1)));
            }
            i = i + 1;
        }
        proof {
            assert(labels.take(n as int) =~= labels);
            lemma_leaves_member(labels);
        }
        let mut out = Indexes::new();
        let mut k: usize = 0;
        let ghost goal = leaves_of(entries);
        while k < set.len()
            invariant
                k <= set@.len(),
                *self == *old(self),
                self@ == entries,
                labels == entries.map_values(|e: EntryView| e.0),
                set@.map_values(|x: String| x@) == leaves_labels(labels),
                goal == leaves_of(entries),
                goal.len() == set@.len(),
                out@ == goal.take(k as int),
                out.spec_pos() == 0,
            decreases set@.len() - k,
        {
            let label = set[k].clone();
            proof {
                assert(label@ == leaves_labels(labels)[k as int]);
                let j = choose|j: int| 0 <= j < labels.len() && labels[j] == label@;
                assert(entries[j].0 == label@);
                assert(spec_has(entries, label@));
            }
            match self.get(label.as_str()) {
                Some(item) => {
                    out.order.push((label, item.0, item.1));
                    proof {
                        assert(out@ =~= goal.take(k + 1));
                    }
                },
                None => {
                    proof {
                        assert(false);
                    }
                },
            }
            k = k + 1;
        }
        self.pos = self.order.len();
        proof {
            assert(goal.take(set@.len() as int) =~= goal);
        }
        out
    }
}

/// The position of the last separator in a label, if any.
fn last_slash(s: &str) -> (r: Option<usize>)
    ensures
        r matches Some(i) ==> i == last_slash_idx(s@) && 0 <= i < s@.len(),
        r is None ==> last_slash_idx(s@) == -1,
{
    let n = s.unicode_len();
    let mut i: usize = n;
    while i > 0
        invariant
            i <= n,
            n == s@.len(),
            forall|j: int| i <= j < n ==> s@[j] != '/',
        decreases i,
    {
        i = i - 1;
        if s.get_char(i) == '/' {
            proof {
                lemma_last_slash_at(s@, i as int);
            }
            return Some(i);
        }
    }
    proof {
        lemma_last_slash(s@);
    }
    None
}

/// The first position of `needle` in the list, if any.
fn position_of(v: &Vec<String>, needle: &str) -> (r: Option<usize>)
    ensures
        r matches Some(k) ==> k == first_label(v@.map_values(|x: String| x@), needle@),
        r is None ==> first_label(v@.map_values(|x: String| x@), needle@) == -1,
{
    let ghost ms = v@.map_values(|x: String| x@);
    proof {
        lemma_first_label(ms, needle@);
    }
    let n = v.len();
    let mut i: usize = 0;
    while i < n
        invariant
            i <= n,
            n == v@.len(),
            ms == v@.map_values(|x: String| x@),
            forall|j: int| 0 <= j < i ==> ms[j] != needle@,
        decreases n - i,
    {
        if str_eq(v[i].as_str(), needle) {
            proof {
                assert(ms[i as int] == needle@);
                assert(first_label(ms, needle@) == i);
            }
            return Some(i);
        }
        proof {
            assert(ms[i as int] == v@[i as int]@);
        }
        i = i + 1;
    }
    None
}

/// A position that holds a separator with none after it is the last one.
proof fn lemma_last_slash_at(s: Seq<char>, i: int)
    requires
        0 <= i < s.len(),
        s[i] == '/',
        forall|j: int| i < j < s.len() ==> s[j] != '/',
    ensures
        last_slash_idx(s) == i,
    decreases s.len(),
{
    if s[s.len() - 1] == '/' {
        assert(i == s.len() - 1);
    } else {
        assert(i < s.len() - 1);
        lemma_last_slash_at(s.drop_last(), i);
    }
}

/// Every surviving label was one of the index's labels.
pub proof fn lemma_leaves_member(labels: Seq<Seq<char>>)
    ensures
        forall|k: int|
            0 <= k < leaves_labels(labels).len() ==> exists|j: int|
                0 <= j < labels.len() && labels[j] == #[trigger] leaves_labels(labels)[k],
    decreases labels.len(),
{
    if labels.len() == 0 {
    } else {
        lemma_leaves_member(labels.drop_last());
        let prev = leaves_labels(labels.drop_last());
        let l = labels.last();
        let cur = leaves_labels(labels);
        assert forall|k: int| 0 <= k < cur.len() implies exists|j: int|
            0 <= j < labels.len() && labels[j] == #[trigger] cur[k] by {
            if has_parent(l) && first_label(prev, parent_of(l)) >= 0 {
                let m = first_label(prev, parent_of(l));
                lemma_first_label(prev, parent_of(l));
                if k == cur.len() - 1 {
                    assert(labels[labels.len() - 1] == cur[k]);
                } else {
                    let k0: int = if k < m {
                        k
                    } else {
                        k + 1
                    };
                    assert(cur[k] == prev[k0]);
                    let j = choose|j: int|
                        0 <= j < labels.drop_last().len() && labels.drop_last()[j] == prev[k0];
                    assert(labels[j] == cur[k]);
                }
            } else {
                if k == cur.len() - 1 {
                    assert(labels[labels.len() - 1] == cur[k]);
                } else {
                    assert(cur[k] == prev[k]);
                    let j = choose|j: int|
                        0 <= j < labels.drop_last().len() && labels.drop_last()[j] == prev[k];
                    assert(labels[j] == cur[k]);
                }
            }
        }
    }
}

/// Anything that can describe itself as an index and hand over its bytes.
/// Implementors supply the adapter contract of the diff engine: callers
/// of `create_diff` wrap their format in a type that implements this.
pub trait WithIndexes {
    /// The index of the underlying binary.
    fn get_indexes(&mut self) -> Result<Indexes, String>;

    /// The bytes of the underlying binary, from the start.
    fn get_data(&mut self) -> Vec<u8>;
}

} // verus!
