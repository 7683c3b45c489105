//! Addresses of arena slots.
use vstd::prelude::*;

verus! {

/// The address that no slot has. An entry that is not linked holds it in all
/// its links, and the last entry of a singly linked list holds it as `next`.
pub const NULL_ADDRESS: usize = usize::MAX;

} // verus!
