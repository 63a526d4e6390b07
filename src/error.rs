use vstd::prelude::*;

verus! {

/// The closed set of failures that the queue store reports.
#[derive(Clone, Copy, Debug, PartialEq, Eq, Structural)]
pub enum Error {
    /// A chat or queue that the caller expected to exist is absent.
    NotFound,
    /// A swap, removal or insertion named a position that holds no element
    /// (for an insertion: a position outside `1..=n + 1`).
    PositionNotFound { position: i32 },
    /// A uniqueness rule would be broken: a queue key that is already taken,
    /// or a batch of positions that collide or leave a gap.
    Conflict,
    /// The backing storage could not be reached or could not commit.
    StorageUnavailable,
    /// An internal state that should be impossible; a defect, not a user error.
    Invariant,
}

} // verus!
