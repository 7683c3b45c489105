//! A singly linked list in the layout of `SINGLE_LIST_ENTRY`.
//!
//! The header holds the address of the first entry, every entry that of the
//! next one, and the last entry the null address. Elements enter and leave
//! at the front only.
pub mod arena;
pub mod base;
pub mod boxing;
pub mod traits;

pub use arena::NtSingleListArena;
pub use base::{Iter, IterMut, NtSingleListEntry, NtSingleListHead};
pub use boxing::NtBoxingSingleListHead;
pub use traits::NtSingleList;
