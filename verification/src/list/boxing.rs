//! The doubly linked list that owns its elements.
use vstd::prelude::*;
use crate::list::arena::NtListArena;
use crate::list::base::{Iter, IterMut, NtListHead};
use crate::list::traits::NtList;
use crate::sequence::{lemma_retained_read, retained};
use crate::traits::{NtBoxedListElement, NtListElement, NtTypedList};

verus! {

/// A variant of [`NtListHead`] that boxes every element on insertion.
///
/// The list owns an arena of its own, which holds the boxes of exactly the
/// elements that are linked. An element enters the arena when it is pushed
/// and leaves it when it is popped or rejected by [`retain`](Self::retain)
/// or when the list is cleared; all that is left is dropped with the list.
/// No function has a precondition beyond [`wf`](Self::wf), which every
/// function establishes or keeps.
///
/// The type of the elements names this list as its owner by implementing
/// [`NtBoxedListElement`].
#[verifier::reject_recursive_types(L)]
pub struct NtBoxingListHead<
    E: NtBoxedListElement<L = L> + NtListElement<L>,
    L: NtTypedList<T = NtList>,
> {
    arena: NtListArena<E, L>,
    head: NtListHead<E, L>,
}

impl<E, L> View for NtBoxingListHead<E, L> where
    E: NtBoxedListElement<L = L> + NtListElement<L>,
    L: NtTypedList<T = NtList>,
 {
    type V = Seq<E>;

    /// The elements of the list, from the first to the last.
    open spec fn view(&self) -> Seq<E> {
        self.inner_view().elements(&self.arena_view())
    }
}

impl<E, L> NtBoxingListHead<E, L> where
    E: NtBoxedListElement<L = L> + NtListElement<L>,
    L: NtTypedList<T = NtList>,
 {
    /// The plain head that holds the links of the list.
    pub closed spec fn inner_view(&self) -> NtListHead<E, L> {
        self.head
    }

    /// The arena that holds the elements of the list.
    pub closed spec fn arena_view(&self) -> NtListArena<E, L> {
        self.arena
    }

    /// The links in the list's arena form the ring of the list's head, and
    /// the arena holds no element but the linked ones.
    pub open spec fn wf(&self) -> bool {
        &&& self.inner_view().wf(&self.arena_view())
        &&& self.inner_view().holds_all(&self.arena_view())
    }

    /// The list is well-formed and empty: this is how [`new`](Self::new)
    /// makes a list and how [`clear`](Self::clear) leaves one.
    pub open spec fn cleared(&self) -> bool {
        &&& self.wf()
        &&& self@ == Seq::<E>::empty()
    }

    /// Clearing a list twice leaves it as clearing it once does.
    pub proof fn lemma_clear_idempotent(once: &Self, twice: &Self)
        requires
            once.cleared(),
            twice.cleared(),
        ensures
            twice@ == once@,
            twice@.len() == 0,
    {
    }

    /// A list stays well-formed when elements are written in place: when
    /// its head stays the same and its arena keeps its links and holds
    /// elements in the same slots.
    pub proof fn lemma_wf_same_links(&self, after: &Self)
        requires
            self.wf(),
            after.inner_view() == self.inner_view(),
            after.arena_view().wf(),
            after.arena_view().same_links(&self.arena_view()),
            after.arena_view().same_occupancy(&self.arena_view()),
        ensures
            after.wf(),
    {
        self.head.lemma_wf_same_links(&self.arena, &after.arena);
        assert forall|a: usize| #[trigger] after.arena.holds(a) implies after.head@.contains(a) by {
            assert(self.arena.holds(a));
        }
    }

    /// Creates a new doubly linked list that owns all elements.
    pub fn new() -> (list: Self)
        ensures
            list.cleared(),
    {
        let mut arena = NtListArena::new();
        let head = NtListHead::new(&mut arena);
        let list = NtBoxingListHead { arena, head };
        proof {
            assert(list@ =~= Seq::<E>::empty());
        }
        list
    }

    /// Provides the plain head of the list, whose links can be read in
    /// [`arena`](Self::arena).
    pub fn inner(&self) -> (head: &NtListHead<E, L>)
        ensures
            *head == self.inner_view(),
    {
        &self.head
    }

    /// Provides the arena that holds the elements and the links of the list.
    pub fn arena(&self) -> (arena: &NtListArena<E, L>)
        ensures
            *arena == self.arena_view(),
    {
        &self.arena
    }

    /// Returns `true` if the list is empty.
    pub fn is_empty(&self) -> (empty: bool)
        requires
            self.wf(),
        ensures
            empty == (self@.len() == 0),
    {
        self.head.is_empty(&self.arena)
    }

    /// Counts all elements and returns the length of the list.
    pub fn len(&self) -> (count: usize)
        requires
            self.wf(),
        ensures
            count == self@.len(),
    {
        self.head.len(&self.arena)
    }

    /// Provides a reference to the first element, or `None` if the list is
    /// empty.
    pub fn front(&self) -> (element: Option<&E>)
        requires
            self.wf(),
        ensures
            self@.len() == 0 ==> element.is_none(),
            self@.len() > 0 ==> element.is_some() && *element.unwrap() == self@.first(),
    {
        self.head.front(&self.arena)
    }

    /// Provides a reference to the last element, or `None` if the list is
    /// empty.
    pub fn back(&self) -> (element: Option<&E>)
        requires
            self.wf(),
        ensures
            self@.len() == 0 ==> element.is_none(),
            self@.len() > 0 ==> element.is_some() && *element.unwrap() == self@.last(),
    {
        self.head.back(&self.arena)
    }

    /// Links the boxed `element` at the back of the list.
    fn push_back_boxed(&mut self, element: Box<E>)
        requires
            old(self).wf(),
        ensures
            final(self).wf(),
            final(self)@ == old(self)@.push(*element),
    {
        let ghost before = self.arena;
        let address = self.arena.allocate(element);
        proof {
            self.lemma_fresh_slot(&before, address);
        }
        let ghost allocated = self.arena;
        self.head.push_back(&mut self.arena, address);
        proof {
            assert forall|a: usize| #[trigger] self.arena.holds(a)
                implies self.head@.contains(a) by {
                if a == address {
                    assert(self.head@[self.head@.len() - 1] == a);
                } else {
                    assert(before.holds(a));
                    let k = choose|k: int| 0 <= k < old(self).head@.len()
                        && old(self).head@[k] == a;
                    assert(self.head@[k] == a);
                }
            }
            assert(self@ =~= old(self)@.push(*element)) by {
                assert forall|i: int| 0 <= i < old(self)@.len()
                    implies self@[i] == old(self)@[i] by {
                    assert(old(self).head.elements(&allocated)[i] == old(self)@[i]);
                    assert(allocated.holds(old(self).head@[i]));
                }
            }
        }
    }

    /// Links the boxed `element` at the front of the list.
    fn push_front_boxed(&mut self, element: Box<E>)
        requires
            old(self).wf(),
        ensures
            final(self).wf(),
            final(self)@ == seq![*element] + old(self)@,
    {
        let ghost before = self.arena;
        let address = self.arena.allocate(element);
        proof {
            self.lemma_fresh_slot(&before, address);
        }
        let ghost allocated = self.arena;
        self.head.push_front(&mut self.arena, address);
        proof {
            assert forall|a: usize| #[trigger] self.arena.holds(a)
                implies self.head@.contains(a) by {
                if a == address {
                    assert(self.head@[0] == a);
                } else {
                    assert(before.holds(a));
                    let k = choose|k: int| 0 <= k < old(self).head@.len()
                        && old(self).head@[k] == a;
                    assert(self.head@[k + 1] == a);
                }
            }
            assert(self@ =~= seq![*element] + old(self)@) by {
                assert forall|i: int| 0 < i < self@.len() implies self@[i] == old(self)@[i - 1] by {
                    assert(old(self).head.elements(&allocated)[i - 1] == old(self)@[i - 1]);
                    assert(allocated.holds(old(self).head@[i - 1]));
                }
            }
        }
    }

    /// The head of the list does not see what happens in a slot that was
    /// free or did not exist.
    proof fn lemma_fresh_slot(&self, before: &NtListArena<E, L>, address: usize)
        requires
            self.head.wf(before),
            self.arena.wf(),
            before.slot_count() <= self.arena.slot_count(),
            address == before.slot_count() || before.is_free(address),
            self.arena.agrees_except(before, address),
        ensures
            self.head.wf(&self.arena),
            self.head.elements(&self.arena) == self.head.elements(before),
            !self.head@.contains(address),
    {
        if before.is_free(address) {
            before.lemma_free_slot_is_vacant(address);
        }
        assert forall|a: usize| self.head.footprint().contains(a)
            implies #[trigger] self.arena.same_slot(before, a) by {
            if a != self.head.end_marker_address() {
                let k = choose|k: int| 0 <= k < self.head@.len() && self.head@[k] == a;
                assert(before.holds(self.head@[k]));
            }
        }
        self.head.lemma_wf_frame(before, &self.arena);
        if self.head@.contains(address) {
            let k = choose|k: int| 0 <= k < self.head@.len() && self.head@[k] == address;
            assert(before.holds(self.head@[k]));
        }
    }

    /// Appends an element to the back of the list.
    pub fn push_back(&mut self, element: E)
        requires
            old(self).wf(),
        ensures
            final(self).wf(),
            final(self)@ == old(self)@.push(element),
    {
        let boxed_element = Box::new(element);
        self.push_back_boxed(boxed_element);
    }

    /// Appends an element to the front of the list.
    pub fn push_front(&mut self, element: E)
        requires
            old(self).wf(),
        ensures
            final(self).wf(),
            final(self)@ == seq![element] + old(self)@,
    {
        let boxed_element = Box::new(element);
        self.push_front_boxed(boxed_element);
    }

    /// Takes the element in slot `address`, which has just been unlinked,
    /// out of the arena.
    fn release(&mut self, address: usize) -> (element: Box<E>)
        requires
            old(self).head.wf(&old(self).arena),
            old(self).arena.holds(address),
            !old(self).head@.contains(address),
            forall|a: usize| #[trigger]
                old(self).arena.holds(a) && a != address ==> old(self).head@.contains(a),
        ensures
            final(self).wf(),
            final(self)@ == old(self)@,
            *element == old(self).arena.element_at(address),
    {
        let ghost before = self.arena;
        let element = self.arena.deallocate(address);
        proof {
            assert forall|a: usize| self.head.footprint().contains(a)
                implies #[trigger] self.arena.same_slot(&before, a) by {
                if a != self.head.end_marker_address() {
                    let k = choose|k: int| 0 <= k < self.head@.len() && self.head@[k] == a;
                    assert(before.holds(self.head@[k]));
                }
            }
            self.head.lemma_wf_frame(&before, &self.arena);
            assert forall|a: usize| #[trigger] self.arena.holds(a)
                implies self.head@.contains(a) by {
                assert(before.holds(a));
            }
        }
        element
    }

    /// Removes the last element from the list and returns it, or `None` if
    /// the list is empty.
    pub fn pop_back(&mut self) -> (element: Option<Box<E>>)
        requires
            old(self).wf(),
        ensures
            final(self).wf(),
            old(self)@.len() == 0 ==> element.is_none() && final(self)@ == old(self)@,
            old(self)@.len() > 0 ==> element.is_some() && *element.unwrap() == old(self)@.last(),
            old(self)@.len() > 0 ==> final(self)@ == old(self)@.drop_last(),
            old(self)@.len() > 0 ==> final(self)@.len() == old(self)@.len() - 1,
    {
        match self.head.pop_back(&mut self.arena) {
            Some(address) => {
                proof {
                    let ring = old(self).head@;
                    assert(old(self).arena.holds(ring[ring.len() - 1]));
                    assert(self@ =~= old(self)@.drop_last());
                    assert forall|a: usize| #[trigger]
                        self.arena.holds(a) && a != address implies self.head@.contains(a) by {
                        assert(old(self).arena.holds(a));
                        let k = choose|k: int| 0 <= k < ring.len() && ring[k] == a;
                        assert(self.head@[k] == a);
                    }
                }
                Some(self.release(address))
            },
            None => {
                proof {
                    assert(self@ =~= old(self)@);
                }
                None
            },
        }
    }

    /// Removes the first element from the list and returns it, or `None` if
    /// the list is empty.
    pub fn pop_front(&mut self) -> (element: Option<Box<E>>)
        requires
            old(self).wf(),
        ensures
            final(self).wf(),
            old(self)@.len() == 0 ==> element.is_none() && final(self)@ == old(self)@,
            old(self)@.len() > 0 ==> element.is_some() && *element.unwrap() == old(self)@.first(),
            old(self)@.len() > 0 ==> final(self)@ == old(self)@.drop_first(),
            old(self)@.len() > 0 ==> final(self)@.len() == old(self)@.len() - 1,
    {
        match self.head.pop_front(&mut self.arena) {
            Some(address) => {
                proof {
                    let ring = old(self).head@;
                    assert(old(self).arena.holds(ring[0]));
                    assert(self@ =~= old(self)@.drop_first());
                    assert forall|a: usize| #[trigger]
                        self.arena.holds(a) && a != address implies self.head@.contains(a) by {
                        assert(old(self).arena.holds(a));
                        let k = choose|k: int| 0 <= k < ring.len() && ring[k] == a;
                        assert(self.head@[k - 1] == a);
                    }
                }
                Some(self.release(address))
            },
            None => {
                proof {
                    assert(self@ =~= old(self)@);
                }
                None
            },
        }
    }

    /// Writing the element in a linked slot changes the list at the position
    /// of that slot and nowhere else.
    proof fn lemma_written_element(
        head: &NtListHead<E, L>,
        before: &NtListArena<E, L>,
        after: &NtListArena<E, L>,
        position: int,
    )
        requires
            head.wf(before),
            0 <= position < head@.len(),
            after.wf(),
            after.same_links(before),
            after.same_occupancy(before),
            after.agrees_except(before, head@[position]),
        ensures
            head.wf(after),
            head.holds_all(before) ==> head.holds_all(after),
            head.elements(after) == head.elements(before).update(
                position,
                after.element_at(head@[position]),
            ),
    {
        assert(before.holds(head@[position]));
        head.lemma_wf_same_links(before, after);
        if head.holds_all(before) {
            assert forall|a: usize| #[trigger] after.holds(a) implies head@.contains(a) by {
                assert(before.holds(a));
            }
        }
        assert forall|i: int| 0 <= i < head@.len() && i != position implies after.element_at(
            head@[i],
        ) == before.element_at(head@[i]) by {
            assert(before.holds(head@[i]));
        }
        assert(head.elements(after) =~= head.elements(before).update(
            position,
            after.element_at(head@[position]),
        ));
    }

    /// Provides a mutable reference to the first element, or `None` if the
    /// list is empty.
    pub fn front_mut(&mut self) -> (element: Option<&mut E>)
        requires
            old(self).wf(),
        ensures
            final(self).wf(),
            old(self)@.len() == 0 ==> element.is_none() && final(self)@ == old(self)@,
            old(self)@.len() > 0 ==> element.is_some() && *element.unwrap() == old(self)@.first()
                && final(self)@ == old(self)@.update(0, *final(element.unwrap())),
    {
        proof {
            let head = self.head;
            let before = self.arena;
            if head@.len() > 0 {
                assert(before.holds(head@[0]));
                assert forall|after: NtListArena<E, L>|
                    after.wf() && after.same_links(&before) && after.same_occupancy(&before)
                        && #[trigger] after.agrees_except(&before, head@[0]) implies head.wf(&after)
                    && head.holds_all(&after) && head.elements(&after) == head.elements(
                    &before,
                ).update(
0, after.element_at(head@[0])) by {
                    Self::lemma_written_element(&head, &before, &after, 0);
                }
            }
        }
        self.head.front_mut(&mut self.arena)
    }

    /// Provides a mutable reference to the last element, or `None` if the
    /// list is empty.
    pub fn back_mut(&mut self) -> (element: Option<&mut E>)
        requires
            old(self).wf(),
        ensures
            final(self).wf(),
            old(self)@.len() == 0 ==> element.is_none() && final(self)@ == old(self)@,
            old(self)@.len() > 0 ==> element.is_some() && *element.unwrap() == old(self)@.last()
                && final(self)@ == old(self)@.update(
                old(self)@.len() - 1,
                *final(element.unwrap()),
            ),
    {
        proof {
            let head = self.head;
            let before = self.arena;
            if head@.len() > 0 {
                let last = head@.len() - 1;
                assert forall|after: NtListArena<E, L>|
                    after.wf() && after.same_links(&before) && after.same_occupancy(&before)
                        && #[trigger] after.agrees_except(&before, head@[last]) implies head.wf(
                    &after,
                )
                    && head.holds_all(&after)
                    && head.elements(&after) == head.elements(&before).update(
                    last,
                    after.element_at(head@[last]),
                ) by {
                    Self::lemma_written_element(&head, &before, &after, last);
                }
            }
        }
        self.head.back_mut(&mut self.arena)
    }

    /// Returns an iterator that yields a reference to each element of the
    /// list, from either end.
    pub fn iter(&self) -> (iter: Iter<'_, E, L>)
        requires
            self.wf(),
        ensures
            iter.wf(),
            iter.elements() == self@,
            iter@ == self.inner_view()@,
            *iter.arena() == self.arena_view(),
    {
        self.head.iter(&self.arena)
    }

    /// Returns an iterator that yields a mutable reference to each element
    /// of the list, from either end. When the iterator is gone, the list is
    /// the one that the iterator's arena then holds, with the links it had.
    pub fn iter_mut(&mut self) -> (iter: IterMut<'_, E, L>)
        requires
            old(self).wf(),
        ensures
            iter.wf(),
            iter.elements() == old(self)@,
            iter@ == old(self).inner_view()@,
            *iter.arena == old(self).arena_view(),
            *final(iter.arena) == final(self).arena_view(),
            final(self).inner_view() == old(self).inner_view(),
    {
        self.head.iter_mut(&mut self.arena)
    }

    /// Removes all elements from the list and drops them.
    ///
    /// The list is made empty before the first element is dropped: whatever
    /// runs when an element is dropped never finds an element in the list
    /// that is about to be dropped too.
    pub fn clear(&mut self)
        requires
            old(self).wf(),
        ensures
            final(self).cleared(),
    {
        let end_marker = self.head.end_marker();
        let ghost ring = self.head@;
        let ghost n = ring.len() as int;
        let ghost mut released: int = 0;

        // Get the link to the first element before it is reset.
        let mut current = self.arena.flink(end_marker);

        // Make the list appear empty before deallocating any element.
        self.head.clear(&mut self.arena);
        proof {
            assert forall|i: int| 0 <= i < n implies self.arena.holds(#[trigger] ring[i])
                && self.arena.flink_of(ring[i]) == (if i + 1 < n {
                ring[i + 1]
            } else {
                end_marker
            }) by {
                assert(old(self).arena.holds(ring[i]));
                assert(old(self).arena.flink_of(ring[i]) == old(self).head.ring_at(i + 1));
            }
            assert(self@ =~= Seq::<E>::empty());
            assert forall|a: usize| #[trigger] self.arena.holds(a) implies ring.contains(a) by {
                assert(old(self).arena.holds(a));
            }
        }

        // Walk the entries that were linked and deallocate each element.
        while current != end_marker
            invariant
                self.head.wf(&self.arena),
                self.head@ == Seq::<usize>::empty(),
                self.head.end_marker_address() == end_marker,
                ring.no_duplicates(),
                n == ring.len(),
                0 <= released <= n,
                current == if released < n {
                    ring[released]
                } else {
                    end_marker
                },
                forall|i: int|
                    released <= i < n ==> self.arena.holds(#[trigger] ring[i])
                        && self.arena.flink_of(ring[i]) == (if i + 1 < n {
                        ring[i + 1]
                    } else {
                        end_marker
                    }),
                forall|a: usize| #[trigger] self.arena.holds(a) ==> ring.contains(a),
                forall|i: int| 0 <= i < released ==> !self.arena.holds(#[trigger] ring[i]),
            decreases n - released,
        {
            proof {
                assert(self.arena.holds(ring[released]));
            }
            let next = self.arena.flink(current);
            let ghost before = self.arena;
            let _ = self.arena.deallocate(current);
            proof {
                assert forall|a: usize| self.head.footprint().contains(a)
                    implies #[trigger] self.arena.same_slot(&before, a) by {
                    assert(a == end_marker);
                }
                self.head.lemma_wf_frame(&before, &self.arena);
                assert forall|i: int| released + 1 <= i < n
                    implies self.arena.holds(#[trigger] ring[i])
                    && self.arena.flink_of(ring[i]) == (if i + 1 < n {
                    ring[i + 1]
                } else {
                    end_marker
                }) by {
                    assert(before.holds(ring[i]));
                }
                assert forall|a: usize| #[trigger] self.arena.holds(a) implies ring.contains(a) by {
                    assert(before.holds(a));
                }
                assert forall|i: int| 0 <= i < released + 1
                    implies !self.arena.holds(#[trigger] ring[i]) by {
                    if i < released {
                        assert(!before.holds(ring[i]));
                    }
                }
                released = released + 1;
            }
            current = next;
        }
        proof {
            assert(self@ =~= Seq::<E>::empty());
            assert forall|a: usize| #[trigger] self.arena.holds(a) implies false by {
                let i = choose|i: int| 0 <= i < n && ring[i] == a;
                assert(!self.arena.holds(ring[i]));
            }
        }
    }

    /// Retains only the elements for which `f` returns `true`: every other
    /// element is unlinked and dropped at once. Each element is visited
    /// once, in list order, and the retained elements keep their order.
    pub fn retain<F>(&mut self, f: F) where F: Fn(&E) -> bool
        requires
            old(self).wf(),
            forall|i: int| 0 <= i < old(self)@.len()
                ==> call_requires(f, (&#[trigger] old(self)@[i],)),
        ensures
            final(self).wf(),
            exists|keep: Seq<bool>|
                {
                    &&& keep.len() == old(self)@.len()
                    &&& forall|i: int|
                        0 <= i < keep.len()
                            ==> call_ensures(f, (&old(self)@[i],), #[trigger] keep[i])
                    &&& final(self)@ == retained(old(self)@, keep)
                },
    {
        proof {
            assert forall|i: int| 0 <= i < self.head@.len() implies call_requires(
                f,
                (&self.arena.element_at(#[trigger] self.head@[i]),),
            ) by {
                assert(self@[i] == self.arena.element_at(self.head@[i]));
            }
        }
        self.head.retain_entries(&mut self.arena, f, true);
        proof {
            let ring = old(self).head@;
            let before = old(self).arena;
            let keep = choose|keep: Seq<bool>|
                {
                    &&& keep.len() == ring.len()
                    &&& forall|i: int|
                        0 <= i < keep.len() ==> call_ensures(
                            f,
                            (&before.element_at(ring[i]),),
                            #[trigger] keep[i],
                        )
                    &&& self.head@ == retained(ring, keep)
                };
            let read = |a: usize| before.element_at(a);
            lemma_retained_read(ring, keep, read);
            assert(old(self)@ =~= Seq::new(ring.len(), |i: int| read(ring[i])));
            assert(self@ =~= Seq::new(
                retained(ring, keep).len(),
                |i: int| read(retained(ring, keep)[i]),
            )) by {
                assert forall|i: int| 0 <= i < self.head@.len() implies self.arena.element_at(
                    self.head@[i],
                ) == before.element_at(self.head@[i]) by {
                    assert(self.arena.holds(self.head@[i]));
                }
            }
            assert forall|i: int| 0 <= i < keep.len() implies call_ensures(
                f,
                (&old(self)@[i],),
                #[trigger] keep[i],
            ) by {
                assert(old(self)@[i] == before.element_at(ring[i]));
            }
            assert(self@ == retained(old(self)@, keep));
            assert forall|a: usize| #[trigger] self.arena.holds(a)
                implies self.head@.contains(a) by {
                assert(before.holds(a));
            }
        }
    }

    /// Moves all elements of `other` to the end of the list, in their
    /// order. After this, `other` is empty.
    ///
    /// Every boxing list keeps its boxes in an arena of its own, so the
    /// boxes change hands one by one. The elements stay where they are: in
    /// their boxes.
    pub fn append(&mut self, other: &mut Self)
        requires
            old(self).wf(),
            old(other).wf(),
        ensures
            final(self).wf(),
            final(other).wf(),
            final(self)@ == old(self)@ + old(other)@,
            final(self)@.len() == old(self)@.len() + old(other)@.len(),
            final(other)@ == Seq::<E>::empty(),
            old(other)@.len() == 0 ==> final(self)@ == old(self)@,
    {
        proof {
            assert(old(self)@ + old(other)@ =~= self@ + other@);
        }
        loop
            invariant
                self.wf(),
                other.wf(),
                self@ + other@ == old(self)@ + old(other)@,
            ensures
                self.wf(),
                other.wf(),
                self@ == old(self)@ + old(other)@,
                other@ == Seq::<E>::empty(),
                old(other)@.len() == 0 ==> self@ == old(self)@,
            decreases other@.len(),
        {
            let ghost linked = self@;
            let ghost left = other@;
            match other.pop_front() {
                Some(element) => {
                    self.push_back_boxed(element);
                    proof {
                        assert(linked.push(left.first()) + left.drop_first() =~= linked + left);
                    }
                },
                None => {
                    proof {
                        assert(linked + left =~= linked);
                        assert(left =~= Seq::<E>::empty());
                    }
                    break ;
                },
            }
        }
    }

    /// Appends the boxed elements to the back of the list, in their order.
    ///
    /// Each element is linked behind the one before it. The backward link of
    /// the header is written once, when all elements are linked.
    pub fn extend_boxed(&mut self, elements: Vec<Box<E>>)
        requires
            old(self).wf(),
        ensures
            final(self).wf(),
            final(self)@ == old(self)@ + Seq::new(elements@.len(), |i: int| *elements@[i]),
    {
        let ghost boxes = elements@;
        let end_marker = self.head.end_marker();
        let mut previous = self.arena.blink(end_marker);
        proof {
            self.head.lemma_wf_but_last(&self.arena);
            assert(self@ + Seq::new(0, |i: int| *boxes[i]) =~= self@);
        }
        for element in items: elements
            invariant
                self.head.wf_but_last(&self.arena),
                self.head.holds_all(&self.arena),
                self.head.end_marker_address() == end_marker,
                previous == self.head.ring_at(self.head@.len() - 1),
                items.seq() == boxes,
                self@ == old(self)@ + Seq::new(items.index() as nat, |i: int| *boxes[i]),
        {
            let ghost linked = self@;
            let ghost before = self.arena;
            let entry = self.arena.allocate(element);
            proof {
                if before.is_free(entry) {
                    before.lemma_free_slot_is_vacant(entry);
                }
                assert forall|a: usize| self.head.footprint().contains(a)
                    implies #[trigger] self.arena.same_slot(&before, a) by {
                    if a != end_marker {
                        let k = choose|k: int| 0 <= k < self.head@.len() && self.head@[k] == a;
                        assert(before.holds(self.head@[k]));
                    }
                }
                self.head.lemma_wf_but_last_frame(&before, &self.arena);
                if self.head@.contains(entry) {
                    let k = choose|k: int| 0 <= k < self.head@.len() && self.head@[k] == entry;
                    assert(before.holds(self.head@[k]));
                }
            }
            let ghost allocated = self.arena;
            let ghost shorter = self.head@;
            self.head.link_behind(&mut self.arena, previous, entry);
            previous = entry;
            proof {
                assert forall|a: usize| #[trigger] self.arena.holds(a)
                    implies self.head@.contains(a) by {
                    if a == entry {
                        assert(self.head@[shorter.len() as int] == a);
                    } else {
                        assert(before.holds(a));
                        let k = choose|k: int| 0 <= k < shorter.len() && shorter[k] == a;
                        assert(self.head@[k] == a);
                    }
                }
                assert(self@ =~= linked.push(*element)) by {
                    assert forall|i: int| 0 <= i < linked.len() implies self@[i] == linked[i] by {
                        assert(allocated.holds(self.head@[i]));
                    }
                }
                assert(self@ =~= old(self)@ + Seq::new(
                    (items.index() + 1) as nat,
                    |i: int| *boxes[i],
                ));
            }
        }
        self.head.close_behind(&mut self.arena, previous);
        proof {
            assert forall|a: usize| #[trigger] self.arena.holds(a)
                implies self.head@.contains(a) by {}
            assert(self@ =~= old(self)@ + Seq::new(boxes.len(), |i: int| *boxes[i]));
        }
    }

    /// Boxes the elements and appends them to the back of the list, in
    /// their order.
    pub fn extend(&mut self, elements: Vec<E>)
        requires
            old(self).wf(),
        ensures
            final(self).wf(),
            final(self)@ == old(self)@ + elements@,
    {
        let ghost values = elements@;
        let mut boxes: Vec<Box<E>> = Vec::new();
        for element in items: elements
            invariant
                items.seq() == values,
                boxes@.len() == items.index(),
                forall|i: int| 0 <= i < boxes@.len() ==> *(#[trigger] boxes@[i]) == values[i],
        {
            boxes.push(Box::new(element));
        }
        proof {
            assert(Seq::new(boxes@.len(), |i: int| *boxes@[i]) =~= values);
        }
        self.extend_boxed(boxes);
    }
}

} // verus!
