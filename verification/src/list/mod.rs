//! A doubly linked list in the layout of `LIST_ENTRY`.
//!
//! The entries of a list form a ring through the list header: the forward
//! link of the last entry and the backward link of the first entry hold the
//! address of the header, and an empty header points at itself.
pub mod arena;
pub mod base;
pub mod boxing;
pub mod traits;

pub use arena::NtListArena;
pub use base::{Iter, IterMut, NtListEntry, NtListHead};
pub use boxing::NtBoxingListHead;
pub use traits::NtList;
