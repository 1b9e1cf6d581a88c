//! Failure conditions surfaced by the account-field layer.
use vstd::prelude::*;

verus! {

/// An account-field operation failed.
#[derive(Clone, Copy, Debug, PartialEq, Eq, Structural)]
pub enum Error {
    /// An add, subtract or increment on a 64-bit account field would leave
    /// its range; the mutation is reported, never silently wrapped.
    Overflow,
    /// A node index the witness does not cover was read or written.
    IndexNotCovered,
}

} // verus!
