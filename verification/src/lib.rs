//! Type-safe singly and doubly linked lists in the layout of the Windows NT
//! `SINGLE_LIST_ENTRY` and `LIST_ENTRY` structures.
//!
//! # Arenas and addresses
//!
//! The links of a list are addresses into an arena of slots. Every slot holds
//! the list entry of one element next to the boxed element itself, so linking
//! and unlinking an element never moves it. A doubly linked list is a ring
//! that runs through its header, which occupies a slot of its own and serves
//! as the end marker; a singly linked list is a chain that ends in the null
//! address.
//!
//! # Heads
//!
//! Each list comes in two variants. The plain heads ([`list::NtListHead`],
//! [`single_list::NtSingleListHead`]) link elements that the caller has
//! placed in an arena and never free them; several such lists can share one
//! arena, and the elements of one can be appended to another by relinking
//! four entries. The boxing heads ([`list::NtBoxingListHead`],
//! [`single_list::NtBoxingSingleListHead`]) own their arena, box every
//! element on insertion and hand the box back, or drop it, on removal.
//!
//! # Tags
//!
//! Entries, arenas and heads carry a tag type `L`, one for every list of the
//! program, which keeps the arena of one list away from the head of another.
//! An element lives in the arena of one list. It joins further lists by its
//! address: such a list links small elements of its own that hold the
//! address, and owns nothing else.
//!
//! # Contracts
//!
//! A plain head stands for the sequence of the addresses of its elements, a
//! boxing head for the sequence of the elements themselves. Every function
//! states what it returns and what it makes of that sequence, and every
//! function keeps the links well-formed: each forward link is answered by
//! the backward link of the entry that it names. What holds of several
//! functions together is proved in [`sequence`] and next to the functions.
pub mod address;
pub mod list;
pub mod list_entry;
mod private;
pub mod sequence;
pub mod single_list;
pub mod traits;

pub use traits::{NtBoxedListElement, NtListElement, NtListType, NtTypedList};
