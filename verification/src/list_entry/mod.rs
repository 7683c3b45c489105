//! The owning doubly linked list under the names of its `LIST_ENTRY` parts.
//!
//! [`BoxingListHead`] is [`NtBoxingListHead`](crate::list::NtBoxingListHead)
//! for callers that think of their types in terms of the list entry: a tag
//! type *is a doubly linked list*, an element type *has a list entry* for it
//! and may name it as its *boxed list entry*. The three traits hold of every
//! type that the marker traits of the crate admit, so nothing has to be
//! implemented twice.
pub mod boxing;
pub mod traits;

pub use boxing::BoxingListHead;
pub use traits::{BoxedListEntry, HasListEntry, IsDoublyLinkedList};
