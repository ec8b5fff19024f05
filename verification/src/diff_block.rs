//! Diff blocks and the two operators of the combine engine.
//!
//! `DiffBlockN` counts a block in lines (or bytes) without carrying data;
//! `DiffBlock` carries the inserted bytes as a `ReadSlice`. The `diff`
//! operator projects a pair of aligned blocks from two sequential diffs
//! into the composed diff; the `plus` operator merges two adjacent blocks
//! of one diff. Both are verified against specification-level mirrors.

use vstd::prelude::*;
use crate::bytes_serializer::{BytesSerializer, IntoBytesSerializer};
use crate::cmp::Cmp;
use crate::functions::{u16_to_u8_be_vec, u32_to_u8_be_vec};
use crate::readslice::ReadSlice;
use crate::wire::BlockView;

verus! {

/// A block counted in lines or bytes, without data.
#[derive(Clone, Copy, Debug, PartialEq, Eq)]
pub enum DiffBlockN<T> {
    /// Keep this many units.
    Skip(T),
    /// Insert this many units.
    Add(T),
    /// Drop this many units.
    Remove(T),
    /// Drop the first count, insert the second.
    Replace(T, T),
    /// Drop and insert the same count.
    ReplaceWithSameLength(T),
}

/// A byte-level block carrying its inserted bytes.
pub enum DiffBlock {
    /// Keep `size` source bytes.
    Skip { size: u32 },
    /// Insert the bytes of `data`.
    Add { data: ReadSlice },
    /// Drop `size` source bytes.
    Remove { size: u32 },
    /// Drop `remove_size` source bytes, insert the bytes of `data`.
    Replace { remove_size: u32, data: ReadSlice },
    /// Drop as many source bytes as `data` holds, insert the bytes of `data`.
    ReplaceWithSameLength { data: ReadSlice },
}

impl View for DiffBlock {
    type V = BlockView;

    open spec fn view(&self) -> BlockView {
        match self {
            DiffBlock::Skip { size } => BlockView::Skip { size: *size as nat },
            DiffBlock::Add { data } => BlockView::Add { data: data@ },
            DiffBlock::Remove { size } => BlockView::Remove { size: *size as nat },
            DiffBlock::Replace { remove_size, data } => BlockView::Replace {
                remove_size: *remove_size as nat,
                data: data@,
            },
            DiffBlock::ReplaceWithSameLength { data } => BlockView::ReplaceWithSameLength {
                data: data@,
            },
        }
    }
}

impl DiffBlock {
    /// A block is well-formed when its data stream is unread and fits the
    /// wire format's four-byte length field.
    pub open spec fn wf(&self) -> bool {
        match self {
            DiffBlock::Skip { size } => true,
            DiffBlock::Add { data } => data.spec_pos() == 0 && data@.len() <= u32::MAX,
            DiffBlock::Remove { size } => true,
            DiffBlock::Replace { remove_size, data } => data.spec_pos() == 0 && data@.len()
                <= u32::MAX,
            DiffBlock::ReplaceWithSameLength { data } => data.spec_pos() == 0 && data@.len()
                <= u32::MAX,
        }
    }

    /// The dispatch key of a block pair: tens for the left kind, units for
    /// the right, with kinds numbered `Skip`, `Add`, `Remove`, `Replace`,
    /// `ReplaceWithSameLength` from one to five.
    #[allow(dead_code)]
    fn get_action_number(&self, other: &DiffBlock) -> (r: u8)
        ensures
            r == 10 * kind_code(self@) + kind_code(other@),
    {
        let mut action: u8 = 0;
        match self {
            DiffBlock::Skip { .. } => action += 10,
            DiffBlock::Add { .. } => action += 20,
            DiffBlock::Remove { .. } => action += 30,
            DiffBlock::Replace { .. } => action += 40,
            DiffBlock::ReplaceWithSameLength { .. } => action += 50,
        }
        match other {
            DiffBlock::Skip { .. } => action += 1,
            DiffBlock::Add { .. } => action += 2,
            DiffBlock::Remove { .. } => action += 3,
            DiffBlock::Replace { .. } => action += 4,
            DiffBlock::ReplaceWithSameLength { .. } => action += 5,
        }
        action
    }

    /// Transitive composition: `self` comes from the first diff, `other`
    /// from the second. Returns the emitted block of the composed diff, the
    /// remainder of `self`, and the remainder of `other`, exactly as
    /// `spec_compose` describes.
    #[verifier::rlimit(100)]
    pub fn diff(self, other: DiffBlock) -> (r: (
        Option<DiffBlock>,
        Option<DiffBlock>,
        Option<DiffBlock>,
    ))
        requires
            self.wf(),
            other.wf(),
        ensures
            view_compose(r) == spec_compose(self@, other@),
            opt_wf(r.0) && opt_wf(r.1) && opt_wf(r.2),
    {
        proof {
            reveal_with_fuel(spec_compose, 3);
        }
        match (self, other) {
            (DiffBlock::Skip { size: x }, DiffBlock::Skip { size: y }) => {
                match Cmp::cmp(x, y) {
                    Cmp::Equal => (Some(DiffBlock::Skip { size: x }), None, None),
                    Cmp::Greater => (
                        Some(DiffBlock::Skip { size: y }),
                        Some(DiffBlock::Skip { size: (x - y) as u32 }),
                        None,
                    ),
                    Cmp::Less => (
                        Some(DiffBlock::Skip { size: x }),
                        None,
                        Some(DiffBlock::Skip { size: (y - x) as u32 }),
                    ),
                }
            },
            (DiffBlock::Skip { size: x }, DiffBlock::Add { data }) => (
                Some(DiffBlock::Add { data }),
                Some(DiffBlock::Skip { size: x }),
                None,
            ),
            (DiffBlock::Skip { size: x }, DiffBlock::Remove { size: y }) => {
                match Cmp::cmp(x, y) {
                    Cmp::Equal => (Some(DiffBlock::Remove { size: x }), None, None),
                    Cmp::Greater => (
                        Some(DiffBlock::Remove { size: y }),
                        Some(DiffBlock::Skip { size: (x - y) as u32 }),
                        None,
                    ),
                    Cmp::Less => (
                        Some(DiffBlock::Remove { size: x }),
                        None,
                        Some(DiffBlock::Remove { size: (y - x) as u32 }),
                    ),
                }
            },
            (DiffBlock::Skip { size: x }, DiffBlock::Replace { remove_size: y, data }) => {
                match Cmp::cmp(x, y) {
                    Cmp::Equal => (
                        Some(DiffBlock::Remove { size: x }),
                        None,
                        Some(DiffBlock::Add { data }),
                    ),
                    Cmp::Greater => (
                        Some(DiffBlock::Remove { size: y }),
                        Some(DiffBlock::Skip { size: (x - y) as u32 }),
                        Some(DiffBlock::Add { data }),
                    ),
                    Cmp::Less => (
                        Some(DiffBlock::Remove { size: x }),
                        None,
                        Some(DiffBlock::Replace { remove_size: (y - x) as u32, data }),
                    ),
                }
            },
            (DiffBlock::Skip { size: x }, DiffBlock::ReplaceWithSameLength { data }) => {
                let y = data.size() as u32;
                match Cmp::cmp(x, y) {
                    Cmp::Equal => (
                        Some(DiffBlock::Remove { size: x }),
                        None,
                        Some(DiffBlock::Add { data }),
                    ),
                    Cmp::Greater => (
                        Some(DiffBlock::Remove { size: y }),
                        Some(DiffBlock::Skip { size: (x - y) as u32 }),
                        Some(DiffBlock::Add { data }),
                    ),
                    Cmp::Less => (
                        Some(DiffBlock::Remove { size: x }),
                        None,
                        Some(DiffBlock::Replace { remove_size: (y - x) as u32, data }),
                    ),
                }
            },
            (DiffBlock::Add { data }, DiffBlock::Skip { size: y }) => {
                let x = data.size() as u32;
                match Cmp::cmp(x, y) {
                    Cmp::Equal => (Some(DiffBlock::Add { data }), None, None),
                    Cmp::Greater => {
                        let da = data.take(y as u64);
                        let db = data.offset(y as u64);
                        (Some(DiffBlock::Add { data: da }), Some(DiffBlock::Add { data: db }), None)
                    },
                    Cmp::Less => (
                        Some(DiffBlock::Add { data }),
                        None,
                        Some(DiffBlock::Skip { size: (y - x) as u32 }),
                    ),
                }
            },
            (DiffBlock::Add { data }, DiffBlock::Add { data: datab }) => (
                Some(DiffBlock::Add { data: datab }),
                Some(DiffBlock::Add { data }),
                None,
            ),
            (DiffBlock::Add { data }, DiffBlock::Remove { size: y }) => {
                let x = data.size() as u32;
                match Cmp::cmp(x, y) {
                    Cmp::Equal => (None, None, None),
                    Cmp::Greater => (
                        None,
                        Some(DiffBlock::Add { data: data.offset(y as u64) }),
                        None,
                    ),
                    Cmp::Less => (None, None, Some(DiffBlock::Remove { size: (y - x) as u32 })),
                }
            },
            (DiffBlock::Add { data }, DiffBlock::Replace { remove_size: y, data: datab }) => {
                let x = data.size() as u32;
                match Cmp::cmp(x, y) {
                    Cmp::Equal => (None, None, Some(DiffBlock::Add { data: datab })),
                    Cmp::Greater => (
                        Some(DiffBlock::Add { data: datab }),
                        Some(DiffBlock::Add { data: data.offset(y as u64) }),
                        None,
                    ),
                    Cmp::Less => (
                        None,
                        None,
                        Some(DiffBlock::Replace { remove_size: (y - x) as u32, data: datab }),
                    ),
                }
            },
            (DiffBlock::Add { data }, DiffBlock::ReplaceWithSameLength { data: datab }) => {
                let x = data.size() as u32;
                let y = datab.size() as u32;
                match Cmp::cmp(x, y) {
                    Cmp::Equal => (None, None, Some(DiffBlock::Add { data: datab })),
                    Cmp::Greater => (
                        Some(DiffBlock::Add { data: datab }),
                        Some(DiffBlock::Add { data: data.offset(y as u64) }),
                        None,
                    ),
                    Cmp::Less => (
                        None,
                        None,
                        Some(DiffBlock::Replace { remove_size: (y - x) as u32, data: datab }),
                    ),
                }
            },
            (DiffBlock::Remove { size: x }, other) => (
                Some(DiffBlock::Remove { size: x }),
                None,
                Some(other),
            ),
            (DiffBlock::Replace { remove_size, data }, other) => (
                Some(DiffBlock::Remove { size: remove_size }),
                Some(DiffBlock::Add { data }),
                Some(other),
            ),
            (DiffBlock::ReplaceWithSameLength { data }, other) => {
                let size = data.size() as u32;
                (
                    Some(DiffBlock::Remove { size }),
                    Some(DiffBlock::Add { data }),
                    Some(other),
                )
            },
        }
    }

    /// Merges this block with the one that follows it in the same diff.
    /// Returns the merged block and, when no merge applies, the right block
    /// unchanged as a remainder, exactly as `spec_plus` describes. A merge
    /// whose summed length would no longer fit the wire format is declined
    /// and the pair is returned unchanged.
    pub fn plus(self, other: DiffBlock) -> (r: (DiffBlock, Option<DiffBlock>))
        requires
            self.wf(),
            other.wf(),
        ensures
            (r.0@, opt_view(r.1)) == spec_plus(self@, other@),
            r.0.wf() && opt_wf(r.1),
    {
        match (self, other) {
            (DiffBlock::Skip { size: x }, DiffBlock::Skip { size: y }) => {
                if x <= u32::MAX - y {
                    (DiffBlock::Skip { size: x + y }, None)
                } else {
                    (DiffBlock::Skip { size: x }, Some(DiffBlock::Skip { size: y }))
                }
            },
            (DiffBlock::Add { data }, DiffBlock::Add { data: datab }) => {
                let x = data.size();
                let y = datab.size();
                if x <= (u32::MAX as u64) - y {
                    let chained = data.chain(datab);
                    proof {
                        assert(chained@ =~= data@ + datab@);
                    }
                    (DiffBlock::Add { data: chained }, None)
                } else {
                    (DiffBlock::Add { data }, Some(DiffBlock::Add { data: datab }))
                }
            },
            (DiffBlock::Remove { size }, DiffBlock::Add { data }) => {
                let sizeb = data.size() as u32;
                if size == sizeb {
                    (DiffBlock::ReplaceWithSameLength { data }, None)
                } else {
                    (DiffBlock::Replace { remove_size: size, data }, None)
                }
            },
            (DiffBlock::Remove { size }, DiffBlock::Remove { size: sizeb }) => {
                if size <= u32::MAX - sizeb {
                    (DiffBlock::Remove { size: size + sizeb }, None)
                } else {
                    (DiffBlock::Remove { size }, Some(DiffBlock::Remove { size: sizeb }))
                }
            },
            (DiffBlock::Remove { size }, DiffBlock::Replace { remove_size, data }) => {
                if size <= u32::MAX - remove_size {
                    (DiffBlock::Replace { remove_size: size + remove_size, data }, None)
                } else {
                    (
                        DiffBlock::Remove { size },
                        Some(DiffBlock::Replace { remove_size, data }),
                    )
                }
            },
            (DiffBlock::Remove { size }, DiffBlock::ReplaceWithSameLength { data }) => {
                let sizeb = data.size() as u32;
                if size <= u32::MAX - sizeb {
                    (DiffBlock::Replace { remove_size: size + sizeb, data }, None)
                } else {
                    (
                        DiffBlock::Remove { size },
                        Some(DiffBlock::ReplaceWithSameLength { data }),
                    )
                }
            },
            (DiffBlock::Replace { remove_size, data }, DiffBlock::Add { data: datab }) => {
                let x = data.size();
                let y = datab.size();
                if x <= (u32::MAX as u64) - y {
                    let chained = data.chain(datab);
                    proof {
                        assert(chained@ =~= data@ + datab@);
                    }
                    if remove_size as u64 == x + y {
                        (DiffBlock::ReplaceWithSameLength { data: chained }, None)
                    } else {
                        (DiffBlock::Replace { remove_size, data: chained }, None)
                    }
                } else {
                    (
                        DiffBlock::Replace { remove_size, data },
                        Some(DiffBlock::Add { data: datab }),
                    )
                }
            },
            (DiffBlock::ReplaceWithSameLength { data }, DiffBlock::Add { data: datab }) => {
                let x = data.size();
                let y = datab.size();
                if x <= (u32::MAX as u64) - y {
                    let size = x as u32;
                    let chained = data.chain(datab);
                    proof {
                        assert(chained@ =~= data@ + datab@);
                    }
                    (DiffBlock::Replace { remove_size: size, data: chained }, None)
                } else {
                    (
                        DiffBlock::ReplaceWithSameLength { data },
                        Some(DiffBlock::Add { data: datab }),
                    )
                }
            },
            (a, b) => (a, Some(b)),
        }
    }
}

/// The kind of a block as a one-digit code.
pub open spec fn kind_code(b: BlockView) -> int {
    match b {
        BlockView::Skip { .. } => 1,
        BlockView::Add { .. } => 2,
        BlockView::Remove { .. } => 3,
        BlockView::Replace { .. } => 4,
        BlockView::ReplaceWithSameLength { .. } => 5,
    }
}

/// An optional block is well-formed when the block it holds is.
pub open spec fn opt_wf(b: Option<DiffBlock>) -> bool {
    match b {
        Some(x) => x.wf(),
        None => true,
    }
}

/// The views of an optional-block triple.
pub open spec fn view_compose(r: (Option<DiffBlock>, Option<DiffBlock>, Option<DiffBlock>)) -> (
    Option<BlockView>,
    Option<BlockView>,
    Option<BlockView>,
) {
    (opt_view(r.0), opt_view(r.1), opt_view(r.2))
}

/// The view of an optional block.
pub open spec fn opt_view(b: Option<DiffBlock>) -> Option<BlockView> {
    match b {
        Some(x) => Some(x@),
        None => None,
    }
}

/// The transitive composition table. `x` is the current block of the
/// first diff, `y` of the second; the first diff rewrites a source `A`
/// into `B`, the second rewrites `B` into `C`. The result is the emitted
/// block of the composed diff and the remainders of `x` and `y`.
pub open spec fn spec_compose(x: BlockView, y: BlockView) -> (
    Option<BlockView>,
    Option<BlockView>,
    Option<BlockView>,
)
    decreases kind_code(y),
{
    match (x, y) {
        (BlockView::Skip { size: a }, BlockView::Skip { size: b }) => {
            if a == b {
                (Some(BlockView::Skip { size: a }), None, None)
            } else if a > b {
                (
                    Some(BlockView::Skip { size: b }),
                    Some(BlockView::Skip { size: (a - b) as nat }),
                    None,
                )
            } else {
                (
                    Some(BlockView::Skip { size: a }),
                    None,
                    Some(BlockView::Skip { size: (b - a) as nat }),
                )
            }
        },
        (BlockView::Skip { size: a }, BlockView::Add { data }) => (
            Some(BlockView::Add { data }),
            Some(BlockView::Skip { size: a }),
            None,
        ),
        (BlockView::Skip { size: a }, BlockView::Remove { size: b }) => {
            if a == b {
                (Some(BlockView::Remove { size: a }), None, None)
            } else if a > b {
                (
                    Some(BlockView::Remove { size: b }),
                    Some(BlockView::Skip { size: (a - b) as nat }),
                    None,
                )
            } else {
                (
                    Some(BlockView::Remove { size: a }),
                    None,
                    Some(BlockView::Remove { size: (b - a) as nat }),
                )
            }
        },
        (BlockView::Skip { size: a }, BlockView::Replace { remove_size: b, data }) => {
            if a == b {
                (Some(BlockView::Remove { size: a }), None, Some(BlockView::Add { data }))
            } else if a > b {
                (
                    Some(BlockView::Remove { size: b }),
                    Some(BlockView::Skip { size: (a - b) as nat }),
                    Some(BlockView::Add { data }),
                )
            } else {
                (
                    Some(BlockView::Remove { size: a }),
                    None,
                    Some(BlockView::Replace { remove_size: (b - a) as nat, data }),
                )
            }
        },
        (BlockView::Skip { size: a }, BlockView::ReplaceWithSameLength { data }) => spec_compose(
            x,
            BlockView::Replace { remove_size: data.len(), data },
        ),
        (BlockView::Add { data }, BlockView::Skip { size: b }) => {
            let a = data.len();
            if a == b {
                (Some(BlockView::Add { data }), None, None)
            } else if a > b {
                (
                    Some(BlockView::Add { data: data.take(b as int) }),
                    Some(BlockView::Add { data: data.skip(b as int) }),
                    None,
                )
            } else {
                (
                    Some(BlockView::Add { data }),
                    None,
                    Some(BlockView::Skip { size: (b - a) as nat }),
                )
            }
        },
        (BlockView::Add { data }, BlockView::Add { data: datab }) => (
            Some(BlockView::Add { data: datab }),
            Some(BlockView::Add { data }),
            None,
        ),
        (BlockView::Add { data }, BlockView::Remove { size: b }) => {
            let a = data.len();
            if a == b {
                (None, None, None)
            } else if a > b {
                (None, Some(BlockView::Add { data: data.skip(b as int) }), None)
            } else {
                (None, None, Some(BlockView::Remove { size: (b - a) as nat }))
            }
        },
        (BlockView::Add { data }, BlockView::Replace { remove_size: b, data: datab }) => {
            let a = data.len();
            if a == b {
                (None, None, Some(BlockView::Add { data: datab }))
            } else if a > b {
                (
                    Some(BlockView::Add { data: datab }),
                    Some(BlockView::Add { data: data.skip(b as int) }),
                    None,
                )
            } else {
                (
                    None,
                    None,
                    Some(BlockView::Replace { remove_size: (b - a) as nat, data: datab }),
                )
            }
        },
        (BlockView::Add { data }, BlockView::ReplaceWithSameLength { data: datab }) => spec_compose(
            x,
            BlockView::Replace { remove_size: datab.len(), data: datab },
        ),
        (BlockView::Remove { size: a }, _) => (Some(BlockView::Remove { size: a }), None, Some(y)),
        (BlockView::Replace { remove_size, data }, _) => (
            Some(BlockView::Remove { size: remove_size }),
            Some(BlockView::Add { data }),
            Some(y),
        ),
        (BlockView::ReplaceWithSameLength { data }, _) => (
            Some(BlockView::Remove { size: data.len() }),
            Some(BlockView::Add { data }),
            Some(y),
        ),
    }
}

/// The sum table: merging two adjacent blocks of one diff. Returns the
/// merged block, or the pair unchanged when the kinds do not merge or the
/// summed length would not fit the wire format.
pub open spec fn spec_plus(x: BlockView, y: BlockView) -> (BlockView, Option<BlockView>) {
    match (x, y) {
        (BlockView::Skip { size: a }, BlockView::Skip { size: b }) => {
            if a + b <= u32::MAX {
                (BlockView::Skip { size: a + b }, None)
            } else {
                (x, Some(y))
            }
        },
        (BlockView::Add { data }, BlockView::Add { data: datab }) => {
            if data.len() + datab.len() <= u32::MAX {
                (BlockView::Add { data: data + datab }, None)
            } else {
                (x, Some(y))
            }
        },
        (BlockView::Remove { size: a }, BlockView::Add { data }) => {
            if a == data.len() {
                (BlockView::ReplaceWithSameLength { data }, None)
            } else {
                (BlockView::Replace { remove_size: a, data }, None)
            }
        },
        (BlockView::Remove { size: a }, BlockView::Remove { size: b }) => {
            if a + b <= u32::MAX {
                (BlockView::Remove { size: a + b }, None)
            } else {
                (x, Some(y))
            }
        },
        (BlockView::Remove { size: a }, BlockView::Replace { remove_size: b, data }) => {
            if a + b <= u32::MAX {
                (BlockView::Replace { remove_size: a + b, data }, None)
            } else {
                (x, Some(y))
            }
        },
        (BlockView::Remove { size: a }, BlockView::ReplaceWithSameLength { data }) => {
            if a + data.len() <= u32::MAX {
                (BlockView::Replace { remove_size: a + data.len(), data }, None)
            } else {
                (x, Some(y))
            }
        },
        (BlockView::Replace { remove_size, data }, BlockView::Add { data: datab }) => {
            if data.len() + datab.len() <= u32::MAX {
                if remove_size == data.len() + datab.len() {
                    (BlockView::ReplaceWithSameLength { data: data + datab }, None)
                } else {
                    (BlockView::Replace { remove_size, data: data + datab }, None)
                }
            } else {
                (x, Some(y))
            }
        },
        (BlockView::ReplaceWithSameLength { data }, BlockView::Add { data: datab }) => {
            if data.len() + datab.len() <= u32::MAX {
                (BlockView::Replace { remove_size: data.len(), data: data + datab }, None)
            } else {
                (x, Some(y))
            }
        },
        _ => (x, Some(y)),
    }
}

impl IntoBytesSerializer for DiffBlock {
    open spec fn encodable(&self) -> bool {
        self.wf()
    }

    open spec fn encoding(&self) -> Seq<u8> {
        self@.encoding()
    }

    fn into_bytes(self) -> (r: BytesSerializer) {
        let ghost this = self;
        let mut out: Vec<u8>;
        match self {
            DiffBlock::Skip { size } => {
                out = u16_to_u8_be_vec(0);
                let mut len_bytes = u32_to_u8_be_vec(size);
                out.append(&mut len_bytes);
            },
            DiffBlock::Add { data } => {
                out = u16_to_u8_be_vec(1);
                let mut len_bytes = u32_to_u8_be_vec(data.size() as u32);
                out.append(&mut len_bytes);
                let mut d = data;
                let mut payload = d.read_remaining();
                out.append(&mut payload);
            },
            DiffBlock::Remove { size } => {
                out = u16_to_u8_be_vec(2);
                let mut len_bytes = u32_to_u8_be_vec(size);
                out.append(&mut len_bytes);
            },
            DiffBlock::Replace { remove_size, data } => {
                out = u16_to_u8_be_vec(3);
                let mut remove_bytes = u32_to_u8_be_vec(remove_size);
                out.append(&mut remove_bytes);
                let mut len_bytes = u32_to_u8_be_vec(data.size() as u32);
                out.append(&mut len_bytes);
                let mut d = data;
                let mut payload = d.read_remaining();
                out.append(&mut payload);
            },
            DiffBlock::ReplaceWithSameLength { data } => {
                out = u16_to_u8_be_vec(4);
                let mut len_bytes = u32_to_u8_be_vec(data.size() as u32);
                out.append(&mut len_bytes);
                let mut d = data;
                let mut payload = d.read_remaining();
                out.append(&mut payload);
            },
        }
        proof {
            assert(out@ =~= this.encoding());
        }
        BytesSerializer::new(out)
    }
}

} // verus!

