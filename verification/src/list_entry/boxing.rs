//! The owning doubly linked list for types known by their list entry.
use vstd::prelude::*;
use crate::list::arena::NtListArena;
use crate::list::base::{Iter, IterMut, NtListHead};
use crate::list::boxing::NtBoxingListHead;
use crate::list_entry::traits::{BoxedListEntry, HasListEntry, IsDoublyLinkedList};
use crate::sequence::{lemma_retained_none, retained};

verus! {

/// A doubly linked list that boxes every element on insertion, for an
/// element type that names the list as its [`BoxedListEntry`].
///
/// It is an [`NtBoxingListHead`] and does what that list does. Only
/// [`clear`](Self::clear) goes its own way: it retains nothing.
#[verifier::reject_recursive_types(L)]
pub struct BoxingListHead<E: BoxedListEntry<L = L> + HasListEntry<L>, L: IsDoublyLinkedList>(
    NtBoxingListHead<E, L>,
);

impl<E, L> View for BoxingListHead<E, L> where
    E: BoxedListEntry<L = L> + HasListEntry<L>,
    L: IsDoublyLinkedList,
 {
    type V = Seq<E>;

    /// The elements of the list, from the first to the last.
    open spec fn view(&self) -> Seq<E> {
        self.inner_view().elements(&self.arena_view())
    }
}

impl<E, L> BoxingListHead<E, L> where
    E: BoxedListEntry<L = L> + HasListEntry<L>,
    L: IsDoublyLinkedList,
 {
    /// The plain head that holds the links of the list.
    pub closed spec fn inner_view(&self) -> NtListHead<E, L> {
        self.0.inner_view()
    }

    /// The arena that holds the elements of the list.
    pub closed spec fn arena_view(&self) -> NtListArena<E, L> {
        self.0.arena_view()
    }

    /// The links in the list's arena form the ring of the list's head, and
    /// the arena holds no element but the linked ones.
    pub open spec fn wf(&self) -> bool {
        &&& self.inner_view().wf(&self.arena_view())
        &&& self.inner_view().holds_all(&self.arena_view())
    }

    /// The list is well-formed and empty: this is how [`new`](Self::new)
    /// makes a list and how [`clear`](Self::clear) leaves one.
    pub open spec fn cleared(&self) -> bool {
        &&& self.wf()
        &&& self@ == Seq::<E>::empty()
    }

    /// Clearing a list twice leaves it as clearing it once does.
    pub proof fn lemma_clear_idempotent(once: &Self, twice: &Self)
        requires
            once.cleared(),
            twice.cleared(),
        ensures
            twice@ == once@,
            twice@.len() == 0,
    {
    }

    /// A list stays well-formed when elements are written in place: when
    /// its head stays the same and its arena keeps its links and holds
    /// elements in the same slots.
    pub proof fn lemma_wf_same_links(&self, after: &Self)
        requires
            self.wf(),
            after.inner_view() == self.inner_view(),
            after.arena_view().wf(),
            after.arena_view().same_links(&self.arena_view()),
            after.arena_view().same_occupancy(&self.arena_view()),
        ensures
            after.wf(),
    {
        self.0.lemma_wf_same_links(&after.0);
    }

    /// Creates a new doubly linked list that owns all elements.
    pub fn new() -> (list: Self)
        ensures
            list.cleared(),
    {
        BoxingListHead(NtBoxingListHead::new())
    }

    /// Provides the plain head of the list, whose links can be read in
    /// [`arena`](Self::arena).
    pub fn inner(&self) -> (head: &NtListHead<E, L>)
        ensures
            *head == self.inner_view(),
    {
        self.0.inner()
    }

    /// Provides the arena that holds the elements and the links of the list.
    pub fn arena(&self) -> (arena: &NtListArena<E, L>)
        ensures
            *arena == self.arena_view(),
    {
        self.0.arena()
    }

    /// Moves all elements of `other` to the end of the list, in their
    /// order. After this, `other` is empty.
    pub fn append(&mut self, other: &mut Self)
        requires
            old(self).wf(),
            old(other).wf(),
        ensures
            final(self).wf(),
            final(other).wf(),
            final(self)@ == old(self)@ + old(other)@,
            final(self)@.len() == old(self)@.len() + old(other)@.len(),
            final(other)@ == Seq::<E>::empty(),
            old(other)@.len() == 0 ==> final(self)@ == old(self)@,
    {
        self.0.append(&mut other.0)
    }

    /// Provides a reference to the last element, or `None` if the list is
    /// empty.
    pub fn back(&self) -> (element: Option<&E>)
        requires
            self.wf(),
        ensures
            self@.len() == 0 ==> element.is_none(),
            self@.len() > 0 ==> element.is_some() && *element.unwrap() == self@.last(),
    {
        self.0.back()
    }

    /// Provides a mutable reference to the last element, or `None` if the
    /// list is empty.
    pub fn back_mut(&mut self) -> (element: Option<&mut E>)
        requires
            old(self).wf(),
        ensures
            final(self).wf(),
            old(self)@.len() == 0 ==> element.is_none() && final(self)@ == old(self)@,
            old(self)@.len() > 0 ==> element.is_some() && *element.unwrap() == old(self)@.last()
                && final(self)@ == old(self)@.update(
                old(self)@.len() - 1,
                *final(element.unwrap()),
            ),
    {
        self.0.back_mut()
    }

    /// Removes all elements from the list and drops them, by retaining
    /// none of them.
    pub fn clear(&mut self)
        requires
            old(self).wf(),
        ensures
            final(self).cleared(),
    {
        let none = |_element: &E| -> (kept: bool)
            ensures
                !kept,
            { false };
        self.retain(none);
        proof {
            let keep = choose|keep: Seq<bool>|
                {
                    &&& keep.len() == old(self)@.len()
                    &&& forall|i: int|
                        0 <= i < keep.len() ==> call_ensures(
                            none,
                            (&old(self)@[i],),
                            #[trigger] keep[i],
                        )
                    &&& self@ == retained(old(self)@, keep)
                };
            lemma_retained_none(old(self)@, keep);
        }
    }

    /// Provides a reference to the first element, or `None` if the list is
    /// empty.
    pub fn front(&self) -> (element: Option<&E>)
        requires
            self.wf(),
        ensures
            self@.len() == 0 ==> element.is_none(),
            self@.len() > 0 ==> element.is_some() && *element.unwrap() == self@.first(),
    {
        self.0.front()
    }

    /// Provides a mutable reference to the first element, or `None` if the
    /// list is empty.
    pub fn front_mut(&mut self) -> (element: Option<&mut E>)
        requires
            old(self).wf(),
        ensures
            final(self).wf(),
            old(self)@.len() == 0 ==> element.is_none() && final(self)@ == old(self)@,
            old(self)@.len() > 0 ==> element.is_some() && *element.unwrap() == old(self)@.first()
                && final(self)@ == old(self)@.update(0, *final(element.unwrap())),
    {
        self.0.front_mut()
    }

    /// Returns `true` if the list is empty.
    pub fn is_empty(&self) -> (empty: bool)
        requires
            self.wf(),
        ensures
            empty == (self@.len() == 0),
    {
        self.0.is_empty()
    }

    /// Returns an iterator that yields a reference to each element of the
    /// list, from either end.
    pub fn iter(&self) -> (iter: Iter<'_, E, L>)
        requires
            self.wf(),
        ensures
            iter.wf(),
            iter.elements() == self@,
            iter@ == self.inner_view()@,
            *iter.arena() == self.arena_view(),
    {
        self.0.iter()
    }

    /// Returns an iterator that yields a mutable reference to each element
    /// of the list, from either end. When the iterator is gone, the list is
    /// the one that the iterator's arena then holds, with the links it had.
    pub fn iter_mut(&mut self) -> (iter: IterMut<'_, E, L>)
        requires
            old(self).wf(),
        ensures
            iter.wf(),
            iter.elements() == old(self)@,
            iter@ == old(self).inner_view()@,
            *iter.arena == old(self).arena_view(),
            *final(iter.arena) == final(self).arena_view(),
            final(self).inner_view() == old(self).inner_view(),
    {
        self.0.iter_mut()
    }

    /// Counts all elements and returns the length of the list.
    pub fn len(&self) -> (count: usize)
        requires
            self.wf(),
        ensures
            count == self@.len(),
    {
        self.0.len()
    }

    /// Removes the last element from the list and returns it, or `None` if
    /// the list is empty.
    pub fn pop_back(&mut self) -> (element: Option<Box<E>>)
        requires
            old(self).wf(),
        ensures
            final(self).wf(),
            old(self)@.len() == 0 ==> element.is_none() && final(self)@ == old(self)@,
            old(self)@.len() > 0 ==> element.is_some() && *element.unwrap() == old(self)@.last(),
            old(self)@.len() > 0 ==> final(self)@ == old(self)@.drop_last(),
            old(self)@.len() > 0 ==> final(self)@.len() == old(self)@.len() - 1,
    {
        self.0.pop_back()
    }

    /// Removes the first element from the list and returns it, or `None` if
    /// the list is empty.
    pub fn pop_front(&mut self) -> (element: Option<Box<E>>)
        requires
            old(self).wf(),
        ensures
            final(self).wf(),
            old(self)@.len() == 0 ==> element.is_none() && final(self)@ == old(self)@,
            old(self)@.len() > 0 ==> element.is_some() && *element.unwrap() == old(self)@.first(),
            old(self)@.len() > 0 ==> final(self)@ == old(self)@.drop_first(),
            old(self)@.len() > 0 ==> final(self)@.len() == old(self)@.len() - 1,
    {
        self.0.pop_front()
    }

    /// Appends an element to the back of the list.
    pub fn push_back(&mut self, element: E)
        requires
            old(self).wf(),
        ensures
            final(self).wf(),
            final(self)@ == old(self)@.push(element),
    {
        self.0.push_back(element)
    }

    /// Appends an element to the front of the list.
    pub fn push_front(&mut self, element: E)
        requires
            old(self).wf(),
        ensures
            final(self).wf(),
            final(self)@ == seq![element] + old(self)@,
    {
        self.0.push_front(element)
    }

    /// Retains only the elements for which `f` returns `true`: every other
    /// element is unlinked and dropped at once. Each element is visited
    /// once, in list order, and the retained elements keep their order.
    pub fn retain<F>(&mut self, f: F) where F: Fn(&E) -> bool
        requires
            old(self).wf(),
            forall|i: int| 0 <= i < old(self)@.len()
                ==> call_requires(f, (&#[trigger] old(self)@[i],)),
        ensures
            final(self).wf(),
            exists|keep: Seq<bool>|
                {
                    &&& keep.len() == old(self)@.len()
                    &&& forall|i: int|
                        0 <= i < keep.len()
                            ==> call_ensures(f, (&old(self)@[i],), #[trigger] keep[i])
                    &&& final(self)@ == retained(old(self)@, keep)
                },
    {
        proof {
            assert(self@ == self.0@);
            assert forall|i: int| 0 <= i < self.0@.len() implies call_requires(
                f,
                (&#[trigger] self.0@[i],),
            ) by {
                assert(call_requires(f, (&self@[i],)));
            }
        }
        self.0.retain(f);
        proof {
            assert(self@ == self.0@);
        }
    }
}

} // verus!
