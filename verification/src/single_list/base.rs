//! The entries and the plain head of the singly linked list.
use vstd::prelude::*;
use core::marker::PhantomData;
use crate::address::NULL_ADDRESS;
use crate::sequence::{
    lemma_distinct_addresses_bounded, lemma_retained_len, lemma_retained_push, retained,
};
use crate::single_list::arena::NtSingleListArena;
use crate::single_list::traits::NtSingleList;
use crate::traits::{NtListElement, NtTypedList};

verus! {

/// The link that an element of a singly linked list carries
/// (`SINGLE_LIST_ENTRY`): the address of the next entry, or null in the last
/// entry.
pub struct NtSingleListEntry<E: NtListElement<L>, L: NtTypedList<T = NtSingleList>> {
    /// The link: the address of the next entry, or null.
    pub next: usize,
    /// The element type and the list that the entry belongs to.
    pub tag: PhantomData<(E, L)>,
}

impl<E, L> NtSingleListEntry<E, L> where E: NtListElement<L>, L: NtTypedList<T = NtSingleList> {
    /// Creates an entry that is not linked: its link is null. It gets its
    /// value when the entry is pushed to a list.
    pub fn new() -> (entry: Self)
        ensures
            entry.next == NULL_ADDRESS,
    {
        NtSingleListEntry { next: NULL_ADDRESS, tag: PhantomData }
    }
}

impl<E, L> Default for NtSingleListEntry<E, L> where
    E: NtListElement<L>,
    L: NtTypedList<T = NtSingleList>,
 {
    fn default() -> (entry: Self)
        ensures
            entry.next == NULL_ADDRESS,
    {
        Self::new()
    }
}

/// The header of a singly linked list whose elements the caller keeps alive
/// (`SINGLE_LIST_ENTRY` used as a list header).
///
/// The header holds the address of the first entry and lives outside of the
/// arena: no entry points back at it. The head links and unlinks elements
/// and never allocates or frees one: an element must have been placed in the
/// arena before it is pushed, and it stays there when it leaves the list.
///
/// The functions that follow links take the arena as an argument and require
/// [`wf`](Self::wf): the chain that the head stands for is the one that the
/// links in the arena form.
pub struct NtSingleListHead<E: NtListElement<L>, L: NtTypedList<T = NtSingleList>> {
    next: usize,
    chain: Ghost<Seq<usize>>,
    tag: PhantomData<(E, L)>,
}

impl<E, L> View for NtSingleListHead<E, L> where
    E: NtListElement<L>,
    L: NtTypedList<T = NtSingleList>,
 {
    type V = Seq<usize>;

    /// The addresses of the linked elements, from the first to the last.
    closed spec fn view(&self) -> Seq<usize> {
        self.chain@
    }
}

impl<E, L> Default for NtSingleListHead<E, L> where
    E: NtListElement<L>,
    L: NtTypedList<T = NtSingleList>,
 {
    fn default() -> (head: Self)
        ensures
            head.cleared(),
    {
        Self::new()
    }
}

impl<E, L> NtSingleListHead<E, L> where E: NtListElement<L>, L: NtTypedList<T = NtSingleList> {
    /// The header points at the first element of the chain, which has an
    /// address other than null, or holds null if there is none.
    #[verifier::type_invariant]
    spec fn anchored(self) -> bool {
        self.next == if self.chain@.len() > 0 {
            self.chain@.first()
        } else {
            NULL_ADDRESS
        } && (self.chain@.len() > 0 ==> self.chain@.first() != NULL_ADDRESS)
    }

    /// The link of the header: the address of the first element, or null.
    pub closed spec fn first_address(&self) -> usize {
        self.next
    }

    /// The address that follows position `i` of the chain: the element at
    /// `i + 1`, or null after the last element.
    pub open spec fn successor(&self, i: int) -> usize {
        if 0 <= i + 1 < self@.len() {
            self@[i + 1]
        } else {
            NULL_ADDRESS
        }
    }

    /// The addresses that the list occupies: those of its elements.
    pub open spec fn footprint(&self) -> Set<usize> {
        self@.to_set()
    }

    /// The linked elements, from the first to the last.
    pub open spec fn elements(&self, arena: &NtSingleListArena<E, L>) -> Seq<E> {
        Seq::new(self@.len(), |i: int| arena.element_at(self@[i]))
    }

    /// Every element that `arena` holds is linked in this list.
    pub open spec fn holds_all(&self, arena: &NtSingleListArena<E, L>) -> bool {
        forall|a: usize| #[trigger] arena.holds(a) ==> self@.contains(a)
    }

    /// The links in `arena` form the chain that this head stands for: the
    /// header holds the address of the first element, the linked slots hold
    /// one element each and none occurs twice, every link holds the address
    /// of the next element, and the link of the last element is null.
    pub open spec fn wf(&self, arena: &NtSingleListArena<E, L>) -> bool {
        &&& arena.wf()
        &&& self@.no_duplicates()
        &&& forall|i: int| 0 <= i < self@.len() ==> arena.holds(#[trigger] self@[i])
        &&& self.first_address() == self.successor(-1)
        &&& forall|i: int|
            0 <= i < self@.len() ==> #[trigger] arena.next_of(self@[i]) == self.successor(i)
    }

    /// The list is empty and its header holds the null address: this is how
    /// [`new`](Self::new) makes a list and how [`clear`](Self::clear) leaves
    /// one.
    pub open spec fn cleared(&self) -> bool {
        &&& self@ == Seq::<usize>::empty()
        &&& self.first_address() == NULL_ADDRESS
    }

    /// Clearing a list twice leaves it as clearing it once does.
    pub proof fn lemma_clear_idempotent(once: &Self, twice: &Self)
        requires
            once.cleared(),
            twice.cleared(),
        ensures
            twice@ == once@,
            twice.first_address() == once.first_address(),
    {
    }

    /// Creates a new singly linked list.
    pub fn new() -> (head: Self)
        ensures
            head.cleared(),
    {
        NtSingleListHead { next: NULL_ADDRESS, chain: Ghost(Seq::empty()), tag: PhantomData }
    }

    /// Removes all elements from the list by resetting the link of the
    /// header. The entries of the elements keep their links, and the
    /// elements stay in their slots.
    pub fn clear(&mut self)
        ensures
            final(self).cleared(),
    {
        *self = NtSingleListHead {
            next: NULL_ADDRESS,
            chain: Ghost(Seq::empty()),
            tag: PhantomData,
        };
    }

    /// Returns `true` if the list is empty: the link of the header is null.
    pub fn is_empty(&self) -> (empty: bool)
        ensures
            empty == (self@.len() == 0),
    {
        proof {
            use_type_invariant(self);
        }
        self.next == NULL_ADDRESS
    }

    /// Returns the link of the header: the address of the first element, or
    /// null if the list is empty.
    pub fn first(&self) -> (address: usize)
        ensures
            address == self.first_address(),
    {
        self.next
    }

    /// An empty list is well-formed in every arena.
    pub proof fn lemma_empty_wf(&self, arena: &NtSingleListArena<E, L>)
        requires
            self.cleared(),
            arena.wf(),
        ensures
            self.wf(arena),
    {
    }

    /// Provides a reference to the first element, or `None` if the list is
    /// empty.
    pub fn front<'a>(&self, arena: &'a NtSingleListArena<E, L>) -> (element: Option<&'a E>)
        requires
            self.wf(arena),
        ensures
            self@.len() == 0 ==> element.is_none(),
            self@.len() > 0 ==> element.is_some() && *element.unwrap() == arena.element_at(
                self@.first(),
            ),
    {
        if self.is_empty() {
            None
        } else {
            proof {
                assert(arena.holds(self@[0]));
            }
            Some(arena.get(self.next))
        }
    }

    /// Provides a mutable reference to the first element, or `None` if the
    /// list is empty.
    pub fn front_mut<'a>(&self, arena: &'a mut NtSingleListArena<E, L>) -> (element: Option<
        &'a mut E,
    >)
        requires
            self.wf(old(arena)),
        ensures
            self.wf(final(arena)),
            final(arena).same_links(old(arena)),
            final(arena).same_occupancy(old(arena)),
            self@.len() == 0 ==> element.is_none() && *final(arena) == *old(arena),
            self@.len() > 0 ==> element.is_some() && *element.unwrap() == old(arena).element_at(
                self@.first(),
            ) && final(arena).element_at(self@.first()) == *final(element.unwrap())
                && final(arena).agrees_except(old(arena), self@.first()),
    {
        if self.is_empty() {
            None
        } else {
            proof {
                assert(arena.holds(self@[0]));
            }
            Some(arena.get_mut(self.next))
        }
    }

    /// Appends the element in slot `element` to the front of the list.
    ///
    /// The element must not be linked in this list. If it is linked in
    /// another list of the arena, that list is no longer well-formed.
    pub fn push_front(&mut self, arena: &mut NtSingleListArena<E, L>, element: usize)
        requires
            old(self).wf(old(arena)),
            old(arena).holds(element),
            !old(self)@.contains(element),
        ensures
            final(self).wf(final(arena)),
            final(self)@ == seq![element] + old(self)@,
            final(arena).same_elements(old(arena)),
            final(arena).agrees_except(old(arena), element),
    {
        let ghost chain = self.chain@;
        proof {
            arena.lemma_slot_count_fits();
        }
        arena.set_next(element, self.next);
        *self = NtSingleListHead {
            next: element,
            chain: Ghost(seq![element] + chain),
            tag: PhantomData,
        };
        proof {
            let linked = self@;
            assert forall|i: int| 0 < i < linked.len() implies linked[i] == chain[i - 1] by {}
            assert(linked[0] == element);
            assert(linked.no_duplicates());
            assert forall|i: int| 0 <= i < linked.len()
                implies arena.holds(#[trigger] linked[i]) by {
                if i > 0 {
                    assert(old(arena).holds(chain[i - 1]));
                }
            }
            assert forall|i: int| 0 <= i < linked.len() implies #[trigger] arena.next_of(linked[i])
                == self.successor(i) by {
                if i > 0 {
                    assert(old(arena).holds(chain[i - 1]));
                    assert(old(arena).next_of(chain[i - 1]) == old(self).successor(i - 1));
                }
            }
        }
    }

    /// Removes the first element from the list and returns its address, or
    /// `None` if the list is empty. The element stays in its slot, and its
    /// entry keeps its link.
    pub fn pop_front(&mut self, arena: &NtSingleListArena<E, L>) -> (element: Option<usize>)
        requires
            old(self).wf(arena),
        ensures
            final(self).wf(arena),
            old(self)@.len() == 0 ==> element.is_none() && final(self)@ == old(self)@,
            old(self)@.len() > 0 ==> element == Some(old(self)@.first()),
            old(self)@.len() > 0 ==> final(self)@ == old(self)@.drop_first(),
            old(self)@.len() > 0 ==> final(self)@.len() == old(self)@.len() - 1,
    {
        if self.is_empty() {
            None
        } else {
            let ghost chain = self.chain@;
            proof {
                assert(arena.holds(chain[0]));
                assert(arena.next_of(chain[0]) == self.successor(0));
                arena.lemma_slot_count_fits();
                if chain.len() > 1 {
                    assert(arena.holds(chain[1]));
                }
            }
            let entry = self.next;
            *self = NtSingleListHead {
                next: arena.next(entry),
                chain: Ghost(chain.drop_first()),
                tag: PhantomData,
            };
            proof {
                let linked = self@;
                assert forall|i: int| 0 <= i < linked.len() implies linked[i] == chain[i + 1] by {}
                assert forall|i: int| 0 <= i < linked.len()
                    implies arena.holds(#[trigger] linked[i]) by {
                    assert(arena.holds(chain[i + 1]));
                }
                assert forall|i: int| 0 <= i < linked.len() implies #[trigger] arena.next_of(
                    linked[i],
                ) == self.successor(i) by {
                    assert(arena.next_of(chain[i + 1]) == old(self).successor(i + 1));
                }
            }
            Some(entry)
        }
    }

    /// Returns an iterator that yields a reference to each element of the
    /// list, from the first to the last.
    pub fn iter<'a>(&self, arena: &'a NtSingleListArena<E, L>) -> (iter: Iter<'a, E, L>)
        requires
            self.wf(arena),
        ensures
            iter.wf(),
            iter@ == self@,
            iter.arena() == arena,
    {
        proof {
            use_type_invariant(self);
            assert forall|i: int| 0 <= i < self@.len() implies #[trigger] arena.next_of(self@[i])
                == (if i + 1 < self@.len() {
                self@[i + 1]
            } else {
                NULL_ADDRESS
            }) by {
                assert(arena.next_of(self@[i]) == self.successor(i));
            }
        }
        Iter { arena, current: self.next, remaining: Ghost(self@) }
    }

    /// Returns an iterator that yields a mutable reference to each element
    /// of the list, from the first to the last. The links stay as they are.
    pub fn iter_mut<'a>(&self, arena: &'a mut NtSingleListArena<E, L>) -> (iter: IterMut<'a, E, L>)
        requires
            self.wf(old(arena)),
        ensures
            iter.wf(),
            iter@ == self@,
            *iter.arena == *old(arena),
            *final(iter.arena) == *final(arena),
    {
        proof {
            use_type_invariant(self);
            assert forall|i: int| 0 <= i < self@.len() implies #[trigger] arena.next_of(self@[i])
                == (if i + 1 < self@.len() {
                self@[i + 1]
            } else {
                NULL_ADDRESS
            }) by {
                assert(arena.next_of(self@[i]) == self.successor(i));
            }
        }
        IterMut { arena, current: self.next, remaining: Ghost(self@) }
    }

    /// A head that is well-formed in one arena is well-formed in every arena
    /// that has the same links, holds elements in the same slots and has the
    /// same free slots.
    pub proof fn lemma_wf_same_links(
        &self,
        before: &NtSingleListArena<E, L>,
        after: &NtSingleListArena<E, L>,
    )
        requires
            self.wf(before),
            after.wf(),
            after.same_links(before),
            after.same_occupancy(before),
        ensures
            self.wf(after),
    {
        assert forall|i: int| 0 <= i < self@.len() implies after.holds(#[trigger] self@[i]) by {
            assert(before.holds(self@[i]));
        }
        assert forall|i: int| 0 <= i < self@.len() implies #[trigger] after.next_of(self@[i])
            == self.successor(i) by {
            assert(before.holds(self@[i]));
            assert(before.next_of(self@[i]) == self.successor(i));
        }
    }

    /// A head that is well-formed in one arena is well-formed, with the same
    /// elements, in every arena that agrees with the first on the slots of
    /// the list: what happens to other slots does not reach the list.
    pub proof fn lemma_wf_frame(
        &self,
        before: &NtSingleListArena<E, L>,
        after: &NtSingleListArena<E, L>,
    )
        requires
            self.wf(before),
            after.wf(),
            before.slot_count() <= after.slot_count(),
            forall|a: usize| self.footprint().contains(a) ==> #[trigger] after.same_slot(before, a),
        ensures
            self.wf(after),
            self.elements(after) == self.elements(before),
    {
        assert forall|i: int| 0 <= i < self@.len() implies after.same_slot(
            before,
            #[trigger] self@[i],
        ) by {
            assert(self@.to_set().contains(self@[i]));
        }
        assert forall|i: int| 0 <= i < self@.len() implies after.holds(#[trigger] self@[i]) by {
            assert(before.holds(self@[i]));
            assert(after.same_slot(before, self@[i]));
        }
        assert forall|i: int| 0 <= i < self@.len() implies #[trigger] after.next_of(self@[i])
            == self.successor(i) by {
            assert(after.same_slot(before, self@[i]));
            assert(before.next_of(self@[i]) == self.successor(i));
        }
        assert forall|i: int| 0 <= i < self@.len() implies after.element_at(self@[i])
            == before.element_at(self@[i]) by {
            assert(after.same_slot(before, self@[i]));
            assert(before.holds(self@[i]));
        }
        assert(self.elements(after) =~= self.elements(before));
    }

    /// A list has no more elements than its arena has slots.
    pub proof fn lemma_len_bounded(&self, arena: &NtSingleListArena<E, L>)
        requires
            self.wf(arena),
        ensures
            self@.len() <= arena.slot_count(),
    {
        assert forall|i: int| 0 <= i < self@.len() implies (#[trigger] self@[i])
            < arena.slot_count() by {
            assert(arena.holds(self@[i]));
        }
        lemma_distinct_addresses_bounded(self@, arena.slot_count());
    }

    /// Counts all elements and returns the length of the list.
    pub fn len(&self, arena: &NtSingleListArena<E, L>) -> (count: usize)
        requires
            self.wf(arena),
        ensures
            count == self@.len(),
    {
        proof {
            self.lemma_len_bounded(arena);
            arena.lemma_slot_count_fits();
        }
        let mut iter = self.iter(arena);
        let mut count: usize = 0;
        loop
            invariant
                iter.wf(),
                count + iter@.len() == self@.len(),
                self@.len() <= usize::MAX,
            ensures
                count == self@.len(),
            decreases iter@.len(),
        {
            match iter.next() {
                Some(_) => {
                    count = count + 1;
                },
                None => {
                    break ;
                },
            }
        }
        count
    }

    /// Retains only the elements for which `f` returns `true`: every other
    /// element is unlinked and stays in its slot. Each element is visited
    /// once, in list order, and the retained elements keep their order.
    pub fn retain<F>(&mut self, arena: &mut NtSingleListArena<E, L>, f: F) where F: Fn(&E) -> bool
        requires
            old(self).wf(old(arena)),
            forall|i: int|
                0 <= i < old(self)@.len() ==> call_requires(
                    f,
                    (&old(arena).element_at(#[trigger] old(self)@[i]),),
                ),
        ensures
            final(self).wf(final(arena)),
            final(arena).same_elements(old(arena)),
            final(arena).same_links_outside(old(arena), old(self).footprint()),
            exists|keep: Seq<bool>|
                {
                    &&& keep.len() == old(self)@.len()
                    &&& forall|i: int|
                        0 <= i < keep.len() ==> call_ensures(
                            f,
                            (&old(arena).element_at(old(self)@[i]),),
                            #[trigger] keep[i],
                        )
                    &&& final(self)@ == retained(old(self)@, keep)
                },
    {
        self.retain_entries(arena, f, false);
    }

    /// Unlinks every element for which `f` returns `false` in one pass from
    /// the first element to the last, which remembers the entry that was
    /// kept last: that entry, or the header if there is none, gets linked to
    /// what follows an element that leaves. With `release`, an unlinked
    /// element is dropped at once and its slot freed; without, it stays in
    /// its slot.
    pub(crate) fn retain_entries<F>(
        &mut self,
        arena: &mut NtSingleListArena<E, L>,
        f: F,
        release: bool,
    ) where F: Fn(&E) -> bool
        requires
            old(self).wf(old(arena)),
            forall|i: int|
                0 <= i < old(self)@.len() ==> call_requires(
                    f,
                    (&old(arena).element_at(#[trigger] old(self)@[i]),),
                ),
        ensures
            final(self).wf(final(arena)),
            !release ==> final(arena).same_elements(old(arena)),
            final(arena).same_links_outside(old(arena), old(self).footprint()),
            forall|a: usize| #[trigger]
                final(arena).holds(a) ==> old(arena).holds(a) && final(arena).element_at(a) == old(
                    arena,
                ).element_at(a),
            release ==> forall|a: usize| #[trigger]
                final(arena).holds(a) && old(self)@.contains(a) ==> final(self)@.contains(a),
            exists|keep: Seq<bool>|
                {
                    &&& keep.len() == old(self)@.len()
                    &&& forall|i: int|
                        0 <= i < keep.len() ==> call_ensures(
                            f,
                            (&old(arena).element_at(old(self)@[i]),),
                            #[trigger] keep[i],
                        )
                    &&& final(self)@ == retained(old(self)@, keep)
                },
    {
        let ghost chain = self.chain@;
        let ghost n = chain.len() as int;
        let ghost mut keep: Seq<bool> = Seq::empty();
        let ghost mut visited: int = 0;
        let ghost mut position: int = 0;
        let mut previous = NULL_ADDRESS;
        let mut current = self.next;
        proof {
            use_type_invariant(&*self);
            arena.lemma_slot_count_fits();
            assert(chain.take(0) =~= Seq::<usize>::empty());
            assert(chain.skip(0) =~= chain);
            assert(retained(chain.take(0), keep) + chain.skip(0) =~= chain);
        }
        while current != NULL_ADDRESS
            invariant
                self.wf(arena),
                chain == old(self)@,
                n == chain.len(),
                0 <= visited <= n,
                keep.len() == visited,
                position == retained(chain.take(visited), keep).len(),
                self@ == retained(chain.take(visited), keep) + chain.skip(visited),
                current == self.successor(position - 1),
                previous == if position > 0 {
                    self@[position - 1]
                } else {
                    NULL_ADDRESS
                },
                arena.slot_count() <= usize::MAX,
                !release ==> arena.same_elements(old(arena)),
                arena.same_links_outside(old(arena), old(self).footprint()),
                forall|a: usize| #[trigger]
                    arena.holds(a) ==> old(arena).holds(a) && arena.element_at(a) == old(
                        arena,
                    ).element_at(a),
                release ==> forall|a: usize| #[trigger]
                    arena.holds(a) && chain.contains(a) ==> self@.contains(a),
                forall|a: usize|
                    self.footprint().contains(a) ==> #[trigger] old(self).footprint().contains(a),
                forall|i: int|
                    0 <= i < visited ==> call_ensures(
                        f,
                        (&old(arena).element_at(chain[i]),),
                        #[trigger] keep[i],
                    ),
                forall|i: int|
                    0 <= i < n ==> call_requires(f, (&old(arena).element_at(#[trigger] chain[i]),)),
            decreases n - visited,
        {
            let ghost linked = self@;
            proof {
                lemma_retained_len(chain.take(visited), keep);
                assert(position < linked.len());
                assert(visited < n);
                assert(linked[position] == chain.skip(visited)[0]);
                assert(current == chain[visited]);
                assert(arena.holds(linked[position]));
                assert(arena.next_of(linked[position]) == self.successor(position));
                assert(arena.element_at(current) == old(arena).element_at(current));
                if position > 0 {
                    assert(arena.holds(linked[position - 1]));
                }
                if position + 1 < linked.len() {
                    assert(arena.holds(linked[position + 1]));
                }
            }
            let next = arena.next(current);
            let kept = f(arena.get(current));
            proof {
                lemma_retained_push(chain.take(visited), keep, chain[visited], kept);
                assert(chain.take(visited).push(chain[visited]) =~= chain.take(visited + 1));
                assert(chain.skip(visited) =~= seq![chain[visited]] + chain.skip(visited + 1));
            }
            if kept {
                previous = current;
                proof {
                    position = position + 1;
                    assert(self@ =~= retained(chain.take(visited), keep).push(chain[visited])
                        + chain.skip(visited + 1));
                }
            } else {
                let ghost shorter = linked.remove(position);
                let ghost before = *arena;
                proof {
                    assert(shorter =~= retained(chain.take(visited), keep) + chain.skip(
                        visited + 1,
                    ));
                    assert forall|i: int| 0 <= i < shorter.len() implies shorter[i] == (if i
                        < position {
                        linked[i]
                    } else {
                        linked[i + 1]
                    }) by {}
                    assert(shorter.no_duplicates());
                    assert(linked.to_set().contains(linked[position]));
                }
                if previous == NULL_ADDRESS {
                    *self = NtSingleListHead { next, chain: Ghost(shorter), tag: PhantomData };
                } else {
                    arena.set_next(previous, next);
                    self.chain = Ghost(shorter);
                }
                proof {
                    assert forall|i: int| 0 <= i < shorter.len()
                        implies arena.holds(#[trigger] shorter[i]) by {
                        if i < position {
                            assert(before.holds(linked[i]));
                        } else {
                            assert(before.holds(linked[i + 1]));
                        }
                    }
                    assert forall|i: int| 0 <= i < shorter.len() implies #[trigger] arena.next_of(
                        shorter[i],
                    ) == self.successor(i) by {
                        if i < position {
                            assert(before.holds(linked[i]));
                            assert(before.next_of(linked[i]) == (if i + 1 < linked.len() {
                                linked[i + 1]
                            } else {
                                NULL_ADDRESS
                            }));
                        } else {
                            assert(before.holds(linked[i + 1]));
                            assert(before.next_of(linked[i + 1]) == (if i + 2 < linked.len() {
                                linked[i + 2]
                            } else {
                                NULL_ADDRESS
                            }));
                        }
                    }
                    assert forall|a: usize| self.footprint().contains(a)
                        implies linked.to_set().contains(a) && a != current by {
                        let k = choose|k: int| 0 <= k < shorter.len() && shorter[k] == a;
                        if k < position {
                            assert(linked[k] == a);
                        } else {
                            assert(linked[k + 1] == a);
                        }
                    }
                    if position > 0 {
                        assert(linked.to_set().contains(linked[position - 1]));
                    }
                }
                if release {
                    let ghost unlinked = *arena;
                    let _ = arena.deallocate(current);
                    proof {
                        assert forall|a: usize| self.footprint().contains(a)
                            implies #[trigger] arena.same_slot(&unlinked, a) by {
                            assert(a != current);
                            let k = choose|k: int| 0 <= k < self@.len() && self@[k] == a;
                            assert(unlinked.holds(self@[k]));
                        }
                        self.lemma_wf_frame(&unlinked, arena);
                        assert forall|a: usize| #[trigger]
                            arena.holds(a) && chain.contains(a) implies self@.contains(a) by {
                            assert(unlinked.holds(a));
                            assert(before.holds(a));
                            let k = choose|k: int| 0 <= k < linked.len() && linked[k] == a;
                            if k < position {
                                assert(self@[k] == a);
                            } else {
                                assert(self@[k - 1] == a);
                            }
                        }
                    }
                }
            }
            proof {
                keep = keep.push(kept);
                visited = visited + 1;
            }
            current = next;
        }
        proof {
            lemma_retained_len(chain.take(visited), keep);
            assert(position >= self@.len()) by {
                if position < self@.len() {
                    assert(arena.holds(self@[position]));
                }
            }
            assert(visited == n);
            assert(chain.take(n) =~= chain);
            assert(chain.skip(n) =~= Seq::<usize>::empty());
            assert(self@ =~= retained(chain, keep));
        }
    }
}

/// Iterator over the elements of a singly linked list.
pub struct Iter<'a, E: NtListElement<L>, L: NtTypedList<T = NtSingleList>> {
    arena: &'a NtSingleListArena<E, L>,
    current: usize,
    remaining: Ghost<Seq<usize>>,
}

impl<'a, E, L> View for Iter<'a, E, L> where
    E: NtListElement<L>,
    L: NtTypedList<T = NtSingleList>,
 {
    type V = Seq<usize>;

    /// The addresses of the elements that are left to yield, in list order.
    closed spec fn view(&self) -> Seq<usize> {
        self.remaining@
    }
}

impl<'a, E, L> Iter<'a, E, L> where E: NtListElement<L>, L: NtTypedList<T = NtSingleList> {
    /// The arena that the iterator reads.
    pub closed spec fn arena(&self) -> &NtSingleListArena<E, L> {
        self.arena
    }

    /// The elements that are left to yield, in list order.
    pub open spec fn elements(&self) -> Seq<E> {
        Seq::new(self@.len(), |i: int| self.arena().element_at(self@[i]))
    }

    /// The cursor stands on the first entry that is left to yield, and the
    /// entries after it are linked in their order up to the null link.
    pub closed spec fn wf(&self) -> bool {
        let rest = self.remaining@;
        &&& forall|i: int| 0 <= i < rest.len() ==> self.arena.holds(#[trigger] rest[i])
        &&& self.current == if rest.len() > 0 {
            rest.first()
        } else {
            NULL_ADDRESS
        }
        &&& forall|i: int|
            0 <= i < rest.len() ==> #[trigger] self.arena.next_of(rest[i]) == if i + 1
                < rest.len() {
                rest[i + 1]
            } else {
                NULL_ADDRESS
            }
    }

    /// Yields the first of the remaining elements, or `None` if none is
    /// left.
    pub fn next(&mut self) -> (element: Option<&'a E>)
        requires
            old(self).wf(),
        ensures
            final(self).wf(),
            final(self).arena() == old(self).arena(),
            old(self)@.len() == 0 ==> element.is_none() && final(self)@ == old(self)@,
            old(self)@.len() > 0
                ==> element.is_some()
                && *element.unwrap() == old(self).arena().element_at(old(self)@.first())
                && final(self)@ == old(self)@.drop_first(),
            old(self)@.len() > 0
                ==> *element.unwrap() == old(self).elements().first()
                && final(self).elements() == old(self).elements().drop_first(),
    {
        let ghost rest = self.remaining@;
        proof {
            self.arena.lemma_slot_count_fits();
            if rest.len() > 0 {
                assert(self.arena.holds(rest[0]));
                assert(Seq::new(
                    rest.drop_first().len(),
                    |i: int| self.arena().element_at(rest.drop_first()[i]),
                ) =~= self.elements().drop_first());
            }
        }
        if self.current == NULL_ADDRESS {
            None
        } else {
            let element = self.arena.get(self.current);
            proof {
                assert(self.arena.next_of(rest[0]) == if 1 < rest.len() {
                    rest[1]
                } else {
                    NULL_ADDRESS
                });
            }
            self.current = self.arena.next(self.current);
            self.remaining = Ghost(rest.drop_first());
            proof {
                let left = self.remaining@;
                assert forall|i: int| 0 <= i < left.len() implies left[i] == rest[i + 1] by {}
                assert forall|i: int| 0 <= i < left.len()
                    implies self.arena.holds(#[trigger] left[i]) by {
                    assert(self.arena.holds(rest[i + 1]));
                }
                assert forall|i: int| 0 <= i < left.len() implies #[trigger] self.arena.next_of(
                    left[i],
                ) == (if i + 1 < left.len() {
                    left[i + 1]
                } else {
                    NULL_ADDRESS
                }) by {
                    assert(self.arena.next_of(rest[i + 1]) == if i + 2 < rest.len() {
                        rest[i + 2]
                    } else {
                        NULL_ADDRESS
                    });
                }
            }
            Some(element)
        }
    }
}

/// Mutable iterator over the elements of a singly linked list.
///
/// It works as [`Iter`] does and yields mutable references, which it lends
/// out of the arena borrow that it holds. The fields are public so that a
/// contract can speak of the arena as it is when that borrow ends; they are
/// not meant to be written.
pub struct IterMut<'a, E: NtListElement<L>, L: NtTypedList<T = NtSingleList>> {
    /// The arena, borrowed for as long as the iterator lives.
    pub arena: &'a mut NtSingleListArena<E, L>,
    /// The cursor: the address of the entry that `next` yields.
    pub current: usize,
    /// The addresses that are left to yield.
    pub remaining: Ghost<Seq<usize>>,
}

impl<'a, E, L> View for IterMut<'a, E, L> where
    E: NtListElement<L>,
    L: NtTypedList<T = NtSingleList>,
 {
    type V = Seq<usize>;

    /// The addresses of the elements that are left to yield, in list order.
    closed spec fn view(&self) -> Seq<usize> {
        self.remaining@
    }
}

impl<'a, E, L> IterMut<'a, E, L> where E: NtListElement<L>, L: NtTypedList<T = NtSingleList> {
    /// The elements that are left to yield, in list order.
    pub open spec fn elements(&self) -> Seq<E> {
        Seq::new(self@.len(), |i: int| self.arena.element_at(self@[i]))
    }

    /// The cursor stands on the first entry that is left to yield, and the
    /// entries after it are linked in their order up to the null link.
    pub closed spec fn wf(&self) -> bool {
        let rest = self.remaining@;
        &&& self.arena.wf()
        &&& rest.no_duplicates()
        &&& forall|i: int| 0 <= i < rest.len() ==> self.arena.holds(#[trigger] rest[i])
        &&& self.current == if rest.len() > 0 {
            rest.first()
        } else {
            NULL_ADDRESS
        }
        &&& forall|i: int|
            0 <= i < rest.len() ==> #[trigger] self.arena.next_of(rest[i]) == if i + 1
                < rest.len() {
                rest[i + 1]
            } else {
                NULL_ADDRESS
            }
    }

    /// Moves the cursor one entry forward.
    fn advance(&mut self)
        requires
            old(self).wf(),
            old(self)@.len() > 0,
        ensures
            final(self).wf(),
            final(self)@ == old(self)@.drop_first(),
            *final(self).arena == *old(self).arena,
            *final(final(self).arena) == *final(old(self).arena),
    {
        let ghost rest = self.remaining@;
        proof {
            assert(self.arena.holds(rest[0]));
            assert(self.arena.next_of(rest[0]) == if 1 < rest.len() {
                rest[1]
            } else {
                NULL_ADDRESS
            });
        }
        self.current = self.arena.next(self.current);
        self.remaining = Ghost(rest.drop_first());
        proof {
            let left = self.remaining@;
            assert forall|i: int| 0 <= i < left.len() implies left[i] == rest[i + 1] by {}
            assert forall|i: int| 0 <= i < left.len()
                implies self.arena.holds(#[trigger] left[i]) by {
                assert(self.arena.holds(rest[i + 1]));
            }
            assert forall|i: int| 0 <= i < left.len() implies #[trigger] self.arena.next_of(
                left[i],
            ) == (if i + 1 < left.len() {
                left[i + 1]
            } else {
                NULL_ADDRESS
            }) by {
                assert(self.arena.next_of(rest[i + 1]) == if i + 2 < rest.len() {
                    rest[i + 2]
                } else {
                    NULL_ADDRESS
                });
            }
        }
    }

    /// Yields the first of the remaining elements, or `None` if none is
    /// left.
    pub fn next(&mut self) -> (element: Option<&mut E>)
        requires
            old(self).wf(),
        ensures
            final(self).wf(),
            final(self).arena.wf(),
            *final(final(self).arena) == *final(old(self).arena),
            final(self).arena.same_links(old(self).arena),
            final(self).arena.same_occupancy(old(self).arena),
            old(self)@.len() == 0
                ==> element.is_none() && final(self)@ == old(self)@
                && *final(self).arena == *old(self).arena,
            old(self)@.len() > 0
                ==> element.is_some()
                && *element.unwrap() == old(self).arena.element_at(old(self)@.first())
                && final(self)@ == old(self)@.drop_first()
                && final(self).arena.element_at(old(self)@.first()) == *final(element.unwrap())
                && final(self).arena.agrees_except(old(self).arena, old(self)@.first()),
    {
        let ghost rest = self.remaining@;
        proof {
            self.arena.lemma_slot_count_fits();
            if rest.len() > 0 {
                assert(self.arena.holds(rest[0]));
            }
        }
        if self.current == NULL_ADDRESS {
            None
        } else {
            let current = self.current;
            self.advance();
            let element = self.arena.get_mut(current);
            Some(element)
        }
    }
}

} // verus!
