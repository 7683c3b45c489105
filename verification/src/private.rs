//! What keeps the set of list kinds closed.
use vstd::prelude::*;

verus! {

/// Implemented for the list kinds of this crate and, as this module is
/// private, for no other type.
pub trait Sealed {}

} // verus!
