//! A three-way comparison used by the block operators.

use vstd::prelude::*;

verus! {

/// The outcome of comparing two sizes.
pub enum Cmp {
    Equal,
    Less,
    Greater,
}

impl Cmp {
    /// Compares two block sizes.
    pub fn cmp(a: u32, b: u32) -> (r: Cmp)
        ensures
            r is Equal <==> a == b,
            r is Less <==> a < b,
            r is Greater <==> a > b,
    {
        if a == b {
            return Cmp::Equal;
        }
        if a < b {
            return Cmp::Less;
        }
        Cmp::Greater
    }
}

} // verus!
