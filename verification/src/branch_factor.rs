//! The four supported branch factors and their header codes.

use vstd::prelude::*;

verus! {

/// Number of children per tree node: one of 2, 4, 8 or 32. Each maps to a
/// two-bit code in the header byte and to `log2(branch factor)`, the shift
/// used by the height and offset arithmetic.
#[derive(Clone, Copy, Debug, PartialEq, Eq, Structural)]
pub enum BranchFactor {
    Two,
    Four,
    Eight,
    ThirtyTwo,
}

/// Holds exactly for the four supported branch factors.
pub open spec fn bf_valid(b: u32) -> bool {
    b == 2 || b == 4 || b == 8 || b == 32
}

/// The two-bit code a branch factor is written as in the header byte.
pub open spec fn bf_code(b: u32) -> u32 {
    if b == 2 {
        0
    } else if b == 4 {
        1
    } else if b == 8 {
        2
    } else {
        3
    }
}

/// The branch factor a two-bit header code stands for.
pub open spec fn bf_of_code(c: int) -> u32 {
    if c == 0 {
        2
    } else if c == 1 {
        4
    } else if c == 2 {
        8
    } else {
        32
    }
}

/// `log2` of a supported branch factor.
pub open spec fn bf_log2(b: u32) -> u32 {
    if b == 2 {
        1
    } else if b == 4 {
        2
    } else if b == 8 {
        3
    } else {
        5
    }
}

impl BranchFactor {
    /// The numeric branch factor.
    pub open spec fn spec_value(&self) -> u32 {
        match self {
            BranchFactor::Two => 2,
            BranchFactor::Four => 4,
            BranchFactor::Eight => 8,
            BranchFactor::ThirtyTwo => 32,
        }
    }

    /// The numeric branch factor.
    pub fn value(&self) -> (r: u32)
        ensures
            r == self.spec_value(),
            bf_valid(r),
    {
        match self {
            BranchFactor::Two => 2,
            BranchFactor::Four => 4,
            BranchFactor::Eight => 8,
            BranchFactor::ThirtyTwo => 32,
        }
    }
}

} // verus!
