//! The three fatal outcomes of building an address space.
use vstd::prelude::*;

verus! {

/// Why bring-up cannot go on.
#[derive(Clone, Copy, Debug, PartialEq, Eq, Structural)]
pub enum BringUpError {
    /// A table pool had no free slot when a new table was needed.
    OutOfSlots,
    /// A virtual page is already mapped to a different physical page.
    MappingConflict,
    /// A table descriptor's address does not name a lent-out pool slot.
    PoolInconsistency,
}

} // verus!
