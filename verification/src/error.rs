//! Why an allocation or its worth could not be computed.

use vstd::prelude::*;

verus! {

/// The ways in which a computation of this library fails.
#[derive(Debug, Clone, Copy, PartialEq, Eq, Structural)]
pub enum AllocError {
    /// A guest's forbidden ranges are not ascending intervals without overlap.
    MalformedRanges,
    /// A pinned amount lies strictly inside a forbidden range of its guest.
    ForbiddenPin,
    /// The pinned amounts together are more than the resource that there is.
    BudgetUnderflow,
    /// The welfare does not fit the type of a quantity.
    WelfareOverflow,
}

} // verus!
