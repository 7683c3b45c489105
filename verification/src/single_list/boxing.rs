//! The singly linked list that owns its elements.
use vstd::prelude::*;
use crate::address::NULL_ADDRESS;
use crate::sequence::{lemma_retained_read, retained};
use crate::single_list::arena::NtSingleListArena;
use crate::single_list::base::{Iter, IterMut, NtSingleListHead};
use crate::single_list::traits::NtSingleList;
use crate::traits::{NtBoxedListElement, NtListElement, NtTypedList};

verus! {

/// A variant of [`NtSingleListHead`] that boxes every element on insertion.
///
/// The list owns an arena of its own, which holds the boxes of exactly the
/// elements that are linked. An element enters the arena when it is pushed
/// and leaves it when it is popped or rejected by [`retain`](Self::retain)
/// or when the list is cleared; all that is left is dropped with the list.
/// No function has a precondition beyond [`wf`](Self::wf), which every
/// function establishes or keeps.
///
/// The type of the elements names this list as its owner by implementing
/// [`NtBoxedListElement`].
#[verifier::reject_recursive_types(L)]
pub struct NtBoxingSingleListHead<
    E: NtBoxedListElement<L = L> + NtListElement<L>,
    L: NtTypedList<T = NtSingleList>,
> {
    arena: NtSingleListArena<E, L>,
    head: NtSingleListHead<E, L>,
}

impl<E, L> View for NtBoxingSingleListHead<E, L> where
    E: NtBoxedListElement<L = L> + NtListElement<L>,
    L: NtTypedList<T = NtSingleList>,
 {
    type V = Seq<E>;

    /// The elements of the list, from the first to the last.
    open spec fn view(&self) -> Seq<E> {
        self.inner_view().elements(&self.arena_view())
    }
}

impl<E, L> NtBoxingSingleListHead<E, L> where
    E: NtBoxedListElement<L = L> + NtListElement<L>,
    L: NtTypedList<T = NtSingleList>,
 {
    /// The plain head that holds the link to the first element.
    pub closed spec fn inner_view(&self) -> NtSingleListHead<E, L> {
        self.head
    }

    /// The arena that holds the elements of the list.
    pub closed spec fn arena_view(&self) -> NtSingleListArena<E, L> {
        self.arena
    }

    /// The links in the list's arena form the chain of the list's head, and
    /// the arena holds no element but the linked ones.
    pub open spec fn wf(&self) -> bool {
        &&& self.inner_view().wf(&self.arena_view())
        &&& self.inner_view().holds_all(&self.arena_view())
    }

    /// The list is well-formed and empty: this is how [`new`](Self::new)
    /// makes a list and how [`clear`](Self::clear) leaves one.
    pub open spec fn cleared(&self) -> bool {
        &&& self.wf()
        &&& self@ == Seq::<E>::empty()
    }

    /// Clearing a list twice leaves it as clearing it once does.
    pub proof fn lemma_clear_idempotent(once: &Self, twice: &Self)
        requires
            once.cleared(),
            twice.cleared(),
        ensures
            twice@ == once@,
            twice@.len() == 0,
    {
    }

    /// A list stays well-formed when elements are written in place: when
    /// its head stays the same and its arena keeps its links and holds
    /// elements in the same slots.
    pub proof fn lemma_wf_same_links(&self, after: &Self)
        requires
            self.wf(),
            after.inner_view() == self.inner_view(),
            after.arena_view().wf(),
            after.arena_view().same_links(&self.arena_view()),
            after.arena_view().same_occupancy(&self.arena_view()),
        ensures
            after.wf(),
    {
        self.head.lemma_wf_same_links(&self.arena, &after.arena);
        assert forall|a: usize| #[trigger] after.arena.holds(a) implies after.head@.contains(a) by {
            assert(self.arena.holds(a));
        }
    }

    /// Creates a new singly linked list that owns all elements.
    pub fn new() -> (list: Self)
        ensures
            list.cleared(),
    {
        let arena = NtSingleListArena::new();
        let head = NtSingleListHead::new();
        let list = NtBoxingSingleListHead { arena, head };
        proof {
            list.head.lemma_empty_wf(&list.arena);
            assert(list@ =~= Seq::<E>::empty());
        }
        list
    }

    /// Provides the plain head of the list, whose links can be read in
    /// [`arena`](Self::arena).
    pub fn inner(&self) -> (head: &NtSingleListHead<E, L>)
        ensures
            *head == self.inner_view(),
    {
        &self.head
    }

    /// Provides the arena that holds the elements and the links of the list.
    pub fn arena(&self) -> (arena: &NtSingleListArena<E, L>)
        ensures
            *arena == self.arena_view(),
    {
        &self.arena
    }

    /// Returns `true` if the list is empty.
    pub fn is_empty(&self) -> (empty: bool)
        ensures
            empty == (self@.len() == 0),
    {
        self.head.is_empty()
    }

    /// Counts all elements and returns the length of the list.
    pub fn len(&self) -> (count: usize)
        requires
            self.wf(),
        ensures
            count == self@.len(),
    {
        self.head.len(&self.arena)
    }

    /// Provides a reference to the first element, or `None` if the list is
    /// empty.
    pub fn front(&self) -> (element: Option<&E>)
        requires
            self.wf(),
        ensures
            self@.len() == 0 ==> element.is_none(),
            self@.len() > 0 ==> element.is_some() && *element.unwrap() == self@.first(),
    {
        self.head.front(&self.arena)
    }

    /// Writing the element in a linked slot changes the list at the position
    /// of that slot and nowhere else.
    proof fn lemma_written_element(
        head: &NtSingleListHead<E, L>,
        before: &NtSingleListArena<E, L>,
        after: &NtSingleListArena<E, L>,
        position: int,
    )
        requires
            head.wf(before),
            0 <= position < head@.len(),
            after.wf(),
            after.same_links(before),
            after.same_occupancy(before),
            after.agrees_except(before, head@[position]),
        ensures
            head.wf(after),
            head.holds_all(before) ==> head.holds_all(after),
            head.elements(after) == head.elements(before).update(
                position,
                after.element_at(head@[position]),
            ),
    {
        assert(before.holds(head@[position]));
        head.lemma_wf_same_links(before, after);
        if head.holds_all(before) {
            assert forall|a: usize| #[trigger] after.holds(a) implies head@.contains(a) by {
                assert(before.holds(a));
            }
        }
        assert forall|i: int| 0 <= i < head@.len() && i != position implies after.element_at(
            head@[i],
        ) == before.element_at(head@[i]) by {
            assert(before.holds(head@[i]));
        }
        assert(head.elements(after) =~= head.elements(before).update(
            position,
            after.element_at(head@[position]),
        ));
    }

    /// Provides a mutable reference to the first element, or `None` if the
    /// list is empty.
    pub fn front_mut(&mut self) -> (element: Option<&mut E>)
        requires
            old(self).wf(),
        ensures
            final(self).wf(),
            old(self)@.len() == 0 ==> element.is_none() && final(self)@ == old(self)@,
            old(self)@.len() > 0 ==> element.is_some() && *element.unwrap() == old(self)@.first()
                && final(self)@ == old(self)@.update(0, *final(element.unwrap())),
    {
        proof {
            let head = self.head;
            let before = self.arena;
            if head@.len() > 0 {
                assert forall|after: NtSingleListArena<E, L>|
                    after.wf() && after.same_links(&before) && after.same_occupancy(&before)
                        && #[trigger] after.agrees_except(&before, head@[0]) implies head.wf(&after)
                    && head.holds_all(&after) && head.elements(&after) == head.elements(
                    &before,
                ).update(0, after.element_at(head@[0])) by {
                    Self::lemma_written_element(&head, &before, &after, 0);
                }
            }
        }
        self.head.front_mut(&mut self.arena)
    }

    /// Returns an iterator that yields a reference to each element of the
    /// list, from the first to the last.
    pub fn iter(&self) -> (iter: Iter<'_, E, L>)
        requires
            self.wf(),
        ensures
            iter.wf(),
            iter.elements() == self@,
            iter@ == self.inner_view()@,
            *iter.arena() == self.arena_view(),
    {
        self.head.iter(&self.arena)
    }

    /// Returns an iterator that yields a mutable reference to each element
    /// of the list, from the first to the last. When the iterator is gone,
    /// the list is the one that the iterator's arena then holds, with the
    /// links it had.
    pub fn iter_mut(&mut self) -> (iter: IterMut<'_, E, L>)
        requires
            old(self).wf(),
        ensures
            iter.wf(),
            iter.elements() == old(self)@,
            iter@ == old(self).inner_view()@,
            *iter.arena == old(self).arena_view(),
            *final(iter.arena) == final(self).arena_view(),
            final(self).inner_view() == old(self).inner_view(),
    {
        self.head.iter_mut(&mut self.arena)
    }

    /// Appends an element to the front of the list.
    pub fn push_front(&mut self, element: E)
        requires
            old(self).wf(),
        ensures
            final(self).wf(),
            final(self)@ == seq![element] + old(self)@,
    {
        let boxed_element = Box::new(element);
        let ghost before = self.arena;
        let address = self.arena.allocate(boxed_element);
        proof {
            if before.is_free(address) {
                before.lemma_free_slot_is_vacant(address);
            }
            assert forall|a: usize| self.head.footprint().contains(a)
                implies #[trigger] self.arena.same_slot(&before, a) by {
                let k = choose|k: int| 0 <= k < self.head@.len() && self.head@[k] == a;
                assert(before.holds(self.head@[k]));
            }
            self.head.lemma_wf_frame(&before, &self.arena);
            if self.head@.contains(address) {
                let k = choose|k: int| 0 <= k < self.head@.len() && self.head@[k] == address;
                assert(before.holds(self.head@[k]));
            }
        }
        let ghost allocated = self.arena;
        self.head.push_front(&mut self.arena, address);
        proof {
            assert forall|a: usize| #[trigger] self.arena.holds(a)
                implies self.head@.contains(a) by {
                if a == address {
                    assert(self.head@[0] == a);
                } else {
                    assert(before.holds(a));
                    let k = choose|k: int| 0 <= k < old(self).head@.len()
                        && old(self).head@[k] == a;
                    assert(self.head@[k + 1] == a);
                }
            }
            assert(self@ =~= seq![element] + old(self)@) by {
                assert forall|i: int| 0 < i < self@.len() implies self@[i] == old(self)@[i - 1] by {
                    assert(old(self).head.elements(&allocated)[i - 1] == old(self)@[i - 1]);
                    assert(allocated.holds(old(self).head@[i - 1]));
                }
            }
        }
    }

    /// Removes the first element from the list and returns it, or `None` if
    /// the list is empty.
    pub fn pop_front(&mut self) -> (element: Option<Box<E>>)
        requires
            old(self).wf(),
        ensures
            final(self).wf(),
            old(self)@.len() == 0 ==> element.is_none() && final(self)@ == old(self)@,
            old(self)@.len() > 0 ==> element.is_some() && *element.unwrap() == old(self)@.first(),
            old(self)@.len() > 0 ==> final(self)@ == old(self)@.drop_first(),
            old(self)@.len() > 0 ==> final(self)@.len() == old(self)@.len() - 1,
    {
        match self.head.pop_front(&self.arena) {
            Some(address) => {
                let ghost before = self.arena;
                proof {
                    assert(before.holds(old(self).head@[0]));
                    assert(self@ =~= old(self)@.drop_first());
                }
                let element = self.arena.deallocate(address);
                proof {
                    assert forall|a: usize| self.head.footprint().contains(a)
                        implies #[trigger] self.arena.same_slot(&before, a) by {
                        let k = choose|k: int| 0 <= k < self.head@.len() && self.head@[k] == a;
                        assert(before.holds(self.head@[k]));
                        assert(old(self).head@[k + 1] == a);
                    }
                    self.head.lemma_wf_frame(&before, &self.arena);
                    assert forall|a: usize| #[trigger] self.arena.holds(a)
                        implies self.head@.contains(a) by {
                        assert(before.holds(a));
                        let chain = old(self).head@;
                        let k = choose|k: int| 0 <= k < chain.len() && chain[k] == a;
                        assert(self.head@[k - 1] == a);
                    }
                }
                Some(element)
            },
            None => {
                proof {
                    assert(self@ =~= old(self)@);
                }
                None
            },
        }
    }

    /// Removes all elements from the list and drops them.
    ///
    /// The list is made empty before the first element is dropped: whatever
    /// runs when an element is dropped never finds an element in the list
    /// that is about to be dropped too.
    pub fn clear(&mut self)
        requires
            old(self).wf(),
        ensures
            final(self).cleared(),
    {
        let ghost chain = self.head@;
        let ghost n = chain.len() as int;
        let ghost mut released: int = 0;

        // Get the link to the first element before it is reset.
        let mut current = self.head.first();

        // Make the list appear empty before deallocating any element.
        self.head.clear();
        proof {
            self.arena.lemma_slot_count_fits();
            self.head.lemma_empty_wf(&self.arena);
            assert forall|i: int| 0 <= i < n implies self.arena.holds(#[trigger] chain[i])
                && self.arena.next_of(chain[i]) == (if i + 1 < n {
                chain[i + 1]
            } else {
                NULL_ADDRESS
            }) by {
                assert(old(self).arena.holds(chain[i]));
                assert(old(self).arena.next_of(chain[i]) == old(self).head.successor(i));
            }
            assert(self@ =~= Seq::<E>::empty());
            assert forall|a: usize| #[trigger] self.arena.holds(a) implies chain.contains(a) by {
                assert(old(self).arena.holds(a));
            }
        }

        // Walk the entries that were linked and deallocate each element.
        while current != NULL_ADDRESS
            invariant
                self.head.wf(&self.arena),
                self.head@ == Seq::<usize>::empty(),
                chain.no_duplicates(),
                n == chain.len(),
                0 <= released <= n,
                current == if released < n {
                    chain[released]
                } else {
                    NULL_ADDRESS
                },
                forall|i: int|
                    released <= i < n ==> self.arena.holds(#[trigger] chain[i])
                        && self.arena.next_of(chain[i]) == (if i + 1 < n {
                        chain[i + 1]
                    } else {
                        NULL_ADDRESS
                    }),
                forall|a: usize| #[trigger] self.arena.holds(a) ==> chain.contains(a),
                forall|i: int| 0 <= i < released ==> !self.arena.holds(#[trigger] chain[i]),
            decreases n - released,
        {
            proof {
                assert(self.arena.holds(chain[released]));
            }
            let next = self.arena.next(current);
            let ghost before = self.arena;
            let _ = self.arena.deallocate(current);
            proof {
                self.head.lemma_wf_frame(&before, &self.arena);
                assert forall|i: int| released + 1 <= i < n
                    implies self.arena.holds(#[trigger] chain[i])
                    && self.arena.next_of(chain[i]) == (if i + 1 < n {
                    chain[i + 1]
                } else {
                    NULL_ADDRESS
                }) by {
                    assert(before.holds(chain[i]));
                }
                assert forall|a: usize| #[trigger] self.arena.holds(a)
                    implies chain.contains(a) by {
                    assert(before.holds(a));
                }
                assert forall|i: int| 0 <= i < released + 1
                    implies !self.arena.holds(#[trigger] chain[i]) by {
                    if i < released {
                        assert(!before.holds(chain[i]));
                    }
                }
                released = released + 1;
            }
            current = next;
        }
        proof {
            assert(self@ =~= Seq::<E>::empty());
            assert forall|a: usize| #[trigger] self.arena.holds(a) implies false by {
                let i = choose|i: int| 0 <= i < n && chain[i] == a;
                assert(!self.arena.holds(chain[i]));
            }
        }
    }

    /// Retains only the elements for which `f` returns `true`: every other
    /// element is unlinked and dropped at once. Each element is visited
    /// once, in list order, and the retained elements keep their order.
    pub fn retain<F>(&mut self, f: F) where F: Fn(&E) -> bool
        requires
            old(self).wf(),
            forall|i: int| 0 <= i < old(self)@.len()
                ==> call_requires(f, (&#[trigger] old(self)@[i],)),
        ensures
            final(self).wf(),
            exists|keep: Seq<bool>|
                {
                    &&& keep.len() == old(self)@.len()
                    &&& forall|i: int|
                        0 <= i < keep.len()
                            ==> call_ensures(f, (&old(self)@[i],), #[trigger] keep[i])
                    &&& final(self)@ == retained(old(self)@, keep)
                },
    {
        proof {
            assert forall|i: int| 0 <= i < self.head@.len() implies call_requires(
                f,
                (&self.arena.element_at(#[trigger] self.head@[i]),),
            ) by {
                assert(self@[i] == self.arena.element_at(self.head@[i]));
            }
        }
        self.head.retain_entries(&mut self.arena, f, true);
        proof {
            let chain = old(self).head@;
            let before = old(self).arena;
            let keep = choose|keep: Seq<bool>|
                {
                    &&& keep.len() == chain.len()
                    &&& forall|i: int|
                        0 <= i < keep.len() ==> call_ensures(
                            f,
                            (&before.element_at(chain[i]),),
                            #[trigger] keep[i],
                        )
                    &&& self.head@ == retained(chain, keep)
                };
            let read = |a: usize| before.element_at(a);
            lemma_retained_read(chain, keep, read);
            assert(old(self)@ =~= Seq::new(chain.len(), |i: int| read(chain[i])));
            assert(self@ =~= Seq::new(
                retained(chain, keep).len(),
                |i: int| read(retained(chain, keep)[i]),
            )) by {
                assert forall|i: int| 0 <= i < self.head@.len() implies self.arena.element_at(
                    self.head@[i],
                ) == before.element_at(self.head@[i]) by {
                    assert(self.arena.holds(self.head@[i]));
                }
            }
            assert forall|i: int| 0 <= i < keep.len() implies call_ensures(
                f,
                (&old(self)@[i],),
                #[trigger] keep[i],
            ) by {
                assert(old(self)@[i] == before.element_at(chain[i]));
            }
            assert(self@ == retained(old(self)@, keep));
            assert forall|a: usize| #[trigger] self.arena.holds(a)
                implies self.head@.contains(a) by {
                assert(before.holds(a));
            }
        }
    }
}

impl<E, L> Default for NtBoxingSingleListHead<E, L> where
    E: NtBoxedListElement<L = L> + NtListElement<L>,
    L: NtTypedList<T = NtSingleList>,
 {
    fn default() -> (list: Self)
        ensures
            list.cleared(),
    {
        Self::new()
    }
}

} // verus!
