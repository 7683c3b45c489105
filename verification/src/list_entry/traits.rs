//! The list-entry view of the marker traits.
use vstd::prelude::*;
use crate::list::traits::NtList;
use crate::traits::{NtBoxedListElement, NtListElement, NtTypedList};

verus! {

/// Holds of every tag type of a doubly linked list.
pub trait IsDoublyLinkedList: NtTypedList<T = NtList> {}

impl<L: NtTypedList<T = NtList>> IsDoublyLinkedList for L {}

/// Holds of every type whose values can be linked into the doubly linked
/// list tagged `L`.
pub trait HasListEntry<L: IsDoublyLinkedList>: NtListElement<L> {}

impl<L: IsDoublyLinkedList, E: NtListElement<L>> HasListEntry<L> for E {}

/// Holds of every type whose values are owned by a doubly linked list,
/// the one that [`NtBoxedListElement`] names.
pub trait BoxedListEntry: NtBoxedListElement {}

impl<E: NtBoxedListElement> BoxedListEntry for E where
    <E as NtBoxedListElement>::L: IsDoublyLinkedList,
 {}

} // verus!
