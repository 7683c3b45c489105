//! The tag of the singly linked list kind.
use vstd::prelude::*;
use crate::private::Sealed;
use crate::traits::NtListType;

verus! {

/// The singly linked list kind, named after the structure that its headers
/// and entries have the layout of.
pub enum NtSingleList {
    /// `SINGLE_LIST_ENTRY`: one link to the next entry.
    SingleListEntry,
}

impl NtListType for NtSingleList {}

impl Sealed for NtSingleList {}

} // verus!
