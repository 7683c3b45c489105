//! The tag of the doubly linked list kind.
use vstd::prelude::*;
use crate::private::Sealed;
use crate::traits::NtListType;

verus! {

/// The doubly linked list kind, named after the structure that its headers
/// and entries have the layout of.
pub enum NtList {
    /// `LIST_ENTRY`: a forward link, then a backward link.
    ListEntry,
}

impl NtListType for NtList {}

impl Sealed for NtList {}

} // verus!
