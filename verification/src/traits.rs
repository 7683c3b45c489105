//! The marker traits that tie element types to the lists they belong to.
use vstd::prelude::*;
use crate::private::Sealed;

verus! {

/// The kind of a list: singly or doubly linked.
///
/// Implemented by [`NtList`](crate::list::NtList) and
/// [`NtSingleList`](crate::single_list::NtSingleList) only.
pub trait NtListType: Sealed {}

/// Designates a type as the tag of one list of a given kind.
///
/// Entries, arenas and heads carry the tag of their list as a type
/// parameter, so an arena of one list cannot be handed to the head of
/// another.
pub trait NtTypedList {
    /// The kind of the list.
    type T: NtListType;
}

/// Designates a type as an element of the list tagged `L`.
///
/// Implement it once for every list that holds elements of the type.
pub trait NtListElement<L: NtTypedList> {}

/// Designates the one list that owns the elements of a type by boxing them.
///
/// A type can implement this trait once only, so at most one list owns its
/// elements.
pub trait NtBoxedListElement {
    /// The tag of the owning list.
    type L: NtTypedList;
}

} // verus!
