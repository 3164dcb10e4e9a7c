use vstd::prelude::*;

verus! {

use crate::BLOCK_SIZE;

/// A location in the logical log: `offset` counts blocks from the start of
/// the device region, `rollover` counts how many times the writer has
/// wrapped past the physical end. Ordering is lexicographic, rollover first.
#[derive(Debug, Copy, Clone, PartialEq, Eq, Hash, Structural)]
pub struct WalPosition {
    // block offset into the file
    pub offset: u32,
    pub rollover: u32,
}

/// Strict lexicographic order on positions: rollover first, then offset.
pub open spec fn pos_lt(a: WalPosition, b: WalPosition) -> bool {
    a.rollover < b.rollover || (a.rollover == b.rollover && a.offset < b.offset)
}

/// Non-strict lexicographic order on positions.
pub open spec fn pos_le(a: WalPosition, b: WalPosition) -> bool {
    pos_lt(a, b) || a == b
}

impl WalPosition {
    /// Byte position on the device of this block offset.
    pub fn byte_offset(&self) -> (r: u64)
        ensures
            r == self.offset * BLOCK_SIZE,
    {
        self.offset as u64 * BLOCK_SIZE as u64
    }
}

impl PartialOrd for WalPosition {
    fn partial_cmp(&self, other: &WalPosition) -> (r: Option<core::cmp::Ordering>) {
        if self.rollover > other.rollover {
            Some(core::cmp::Ordering::Greater)
        } else if self.rollover < other.rollover {
            Some(core::cmp::Ordering::Less)
        } else if self.offset > other.offset {
            Some(core::cmp::Ordering::Greater)
        } else if self.offset < other.offset {
            Some(core::cmp::Ordering::Less)
        } else {
            Some(core::cmp::Ordering::Equal)
        }
    }
}

impl vstd::std_specs::cmp::PartialOrdSpecImpl for WalPosition {
    open spec fn obeys_partial_cmp_spec() -> bool {
        true
    }

    open spec fn partial_cmp_spec(&self, other: &WalPosition) -> Option<core::cmp::Ordering> {
        if pos_lt(*self, *other) {
            Some(core::cmp::Ordering::Less)
        } else if pos_lt(*other, *self) {
            Some(core::cmp::Ordering::Greater)
        } else {
            Some(core::cmp::Ordering::Equal)
        }
    }
}

} // verus!
