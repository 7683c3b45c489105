//! The entries and the plain head of the doubly linked list.
use vstd::prelude::*;
use core::marker::PhantomData;
use crate::address::NULL_ADDRESS;
use crate::list::arena::NtListArena;
use crate::list::traits::NtList;
use crate::sequence::{
    lemma_distinct_addresses_bounded, lemma_retained_len, lemma_retained_push, retained,
};
use crate::traits::{NtListElement, NtTypedList};

verus! {

/// The pair of links that an element of a doubly linked list carries
/// (`LIST_ENTRY`): the address of the next entry of the ring, then the
/// address of the previous one.
pub struct NtListEntry<E: NtListElement<L>, L: NtTypedList<T = NtList>> {
    /// The forward link: the address of the next entry of the ring.
    pub flink: usize,
    /// The backward link: the address of the previous entry of the ring.
    pub blink: usize,
    /// The element type and the list that the entry belongs to.
    pub tag: PhantomData<(E, L)>,
}

impl<E, L> NtListEntry<E, L> where E: NtListElement<L>, L: NtTypedList<T = NtList> {
    /// Creates an entry that is not linked: both links are null. They get
    /// their values when the entry is pushed to a list.
    pub fn new() -> (entry: Self)
        ensures
            entry.flink == NULL_ADDRESS,
            entry.blink == NULL_ADDRESS,
    {
        NtListEntry { flink: NULL_ADDRESS, blink: NULL_ADDRESS, tag: PhantomData }
    }
}

impl<E, L> Default for NtListEntry<E, L> where E: NtListElement<L>, L: NtTypedList<T = NtList> {
    fn default() -> (entry: Self)
        ensures
            entry.flink == NULL_ADDRESS,
            entry.blink == NULL_ADDRESS,
    {
        Self::new()
    }
}

/// The header of a doubly linked list whose elements the caller keeps alive
/// (`LIST_ENTRY` used as a list header).
///
/// The header takes a slot of the arena that the elements live in. The
/// address of that slot is the end marker of the list: the ring of entries
/// starts and ends there. The head links and unlinks elements and never
/// allocates or frees one: an element must have been placed in the arena
/// before it is pushed, and it stays there when it leaves the list.
///
/// Every function takes the arena as an argument and requires
/// [`wf`](Self::wf): the ring that the head stands for is the one that the
/// links in the arena form.
pub struct NtListHead<E: NtListElement<L>, L: NtTypedList<T = NtList>> {
    end_marker: usize,
    ring: Ghost<Seq<usize>>,
    tag: PhantomData<(E, L)>,
}

impl<E, L> View for NtListHead<E, L> where E: NtListElement<L>, L: NtTypedList<T = NtList> {
    type V = Seq<usize>;

    /// The addresses of the linked elements, from the first to the last.
    closed spec fn view(&self) -> Seq<usize> {
        self.ring@
    }
}

impl<E, L> NtListHead<E, L> where E: NtListElement<L>, L: NtTypedList<T = NtList> {
    /// The address of the header's own slot.
    pub closed spec fn end_marker_address(&self) -> usize {
        self.end_marker
    }

    /// The address at position `i` of the ring: the element at `i` for a
    /// position inside the list, the end marker for the position before the
    /// first element and for the one after the last.
    pub open spec fn ring_at(&self, i: int) -> usize {
        if 0 <= i < self@.len() {
            self@[i]
        } else {
            self.end_marker_address()
        }
    }

    /// The addresses that the list occupies: its end marker and its
    /// elements.
    pub open spec fn footprint(&self) -> Set<usize> {
        self@.to_set().insert(self.end_marker_address())
    }

    /// The linked elements, from the first to the last.
    pub open spec fn elements(&self, arena: &NtListArena<E, L>) -> Seq<E> {
        Seq::new(self@.len(), |i: int| arena.element_at(self@[i]))
    }

    /// Every element that `arena` holds is linked in this list.
    pub open spec fn holds_all(&self, arena: &NtListArena<E, L>) -> bool {
        forall|a: usize| #[trigger] arena.holds(a) ==> self@.contains(a)
    }

    /// The links in `arena` form the ring that this head stands for: the
    /// header's slot holds no element and is not free, the linked slots hold
    /// one element each and none occurs twice, and every forward link holds
    /// the address of the next position of the ring, every backward link that
    /// of the previous one.
    pub open spec fn wf(&self, arena: &NtListArena<E, L>) -> bool {
        &&& arena.wf()
        &&& self.end_marker_address() < arena.slot_count()
        &&& !arena.holds(self.end_marker_address())
        &&& !arena.is_free(self.end_marker_address())
        &&& self@.no_duplicates()
        &&& forall|i: int| 0 <= i < self@.len() ==> arena.holds(#[trigger] self@[i])
        &&& arena.flink_of(self.end_marker_address()) == self.ring_at(0)
        &&& arena.blink_of(self.end_marker_address()) == self.ring_at(self@.len() - 1)
        &&& forall|i: int|
            0 <= i < self@.len() ==> #[trigger] arena.flink_of(self@[i]) == self.ring_at(i + 1)
        &&& forall|i: int|
            0 <= i < self@.len() ==> #[trigger] arena.blink_of(self@[i]) == self.ring_at(i - 1)
    }

    /// Creates an empty list, whose header takes a new slot of `arena`.
    pub fn new(arena: &mut NtListArena<E, L>) -> (head: Self)
        requires
            old(arena).wf(),
        ensures
            head.wf(final(arena)),
            head@ == Seq::<usize>::empty(),
            head.end_marker_address() == old(arena).slot_count(),
            final(arena).slot_count() == old(arena).slot_count() + 1,
            final(arena).agrees_except(old(arena), head.end_marker_address()),
    {
        let end_marker = arena.allocate_header();
        NtListHead { end_marker, ring: Ghost(Seq::empty()), tag: PhantomData }
    }

    /// Returns the address of the end marker: the header's own slot.
    pub fn end_marker(&self) -> (address: usize)
        ensures
            address == self.end_marker_address(),
    {
        self.end_marker
    }

    /// Returns `true` if the list is empty: the forward link of the header
    /// holds the header's own address.
    pub fn is_empty(&self, arena: &NtListArena<E, L>) -> (empty: bool)
        requires
            self.wf(arena),
        ensures
            empty == (self@.len() == 0),
    {
        arena.flink(self.end_marker) == self.end_marker
    }

    /// Appends the element in slot `element` to the back of the list.
    ///
    /// The element must not be linked in this list. If it is linked in
    /// another list of the arena, that list is no longer well-formed.
    pub fn push_back(&mut self, arena: &mut NtListArena<E, L>, element: usize)
        requires
            old(self).wf(old(arena)),
            old(arena).holds(element),
            !old(self)@.contains(element),
        ensures
            final(self).wf(final(arena)),
            final(self)@ == old(self)@.push(element),
            final(self).end_marker_address() == old(self).end_marker_address(),
            final(arena).same_elements(old(arena)),
            final(arena).same_links_outside(old(arena), old(self).footprint().insert(element)),
    {
        let end_marker = self.end_marker;
        let old_blink = arena.blink(end_marker);
        let ghost ring = self.ring@;
        let ghost n = ring.len() as int;
        proof {
            if n > 0 {
                assert(arena.holds(ring[n - 1]));
            }
        }
        arena.set_flink(element, end_marker);
        arena.set_blink(element, old_blink);
        arena.set_flink(old_blink, element);
        arena.set_blink(end_marker, element);
        self.ring = Ghost(ring.push(element));
        proof {
            let new_ring = self@;
            assert(new_ring.no_duplicates());
            assert forall|i: int| 0 <= i < new_ring.len()
                implies arena.holds(#[trigger] new_ring[i]) by {
                if i < n {
                    assert(old(arena).holds(ring[i]));
                }
            }
            assert forall|i: int| 0 <= i < new_ring.len() implies #[trigger] arena.flink_of(
                new_ring[i],
            ) == self.ring_at(i + 1) by {
                if i < n {
                    assert(old(arena).holds(ring[i]));
                    assert(old(arena).flink_of(ring[i]) == old(self).ring_at(i + 1));
                }
            }
            assert forall|i: int| 0 <= i < new_ring.len() implies #[trigger] arena.blink_of(
                new_ring[i],
            ) == self.ring_at(i - 1) by {
                if i < n {
                    assert(old(arena).holds(ring[i]));
                    assert(old(arena).blink_of(ring[i]) == old(self).ring_at(i - 1));
                }
            }
            assert(old(self).footprint().contains(end_marker));
            if n > 0 {
                assert(ring.to_set().contains(ring[n - 1]));
            }
        }
    }

    /// Appends the element in slot `element` to the front of the list.
    ///
    /// The element must not be linked in this list. If it is linked in
    /// another list of the arena, that list is no longer well-formed.
    pub fn push_front(&mut self, arena: &mut NtListArena<E, L>, element: usize)
        requires
            old(self).wf(old(arena)),
            old(arena).holds(element),
            !old(self)@.contains(element),
        ensures
            final(self).wf(final(arena)),
            final(self)@ == seq![element] + old(self)@,
            final(self).end_marker_address() == old(self).end_marker_address(),
            final(arena).same_elements(old(arena)),
            final(arena).same_links_outside(old(arena), old(self).footprint().insert(element)),
    {
        let end_marker = self.end_marker;
        let old_flink = arena.flink(end_marker);
        let ghost ring = self.ring@;
        let ghost n = ring.len() as int;
        proof {
            if n > 0 {
                assert(arena.holds(ring[0]));
            }
        }
        arena.set_flink(element, old_flink);
        arena.set_blink(element, end_marker);
        arena.set_blink(old_flink, element);
        arena.set_flink(end_marker, element);
        self.ring = Ghost(seq![element] + ring);
        proof {
            let new_ring = self@;
            assert forall|i: int| 0 < i < new_ring.len() implies new_ring[i] == ring[i - 1] by {}
            assert(new_ring[0] == element);
            assert(new_ring.no_duplicates());
            assert forall|i: int| 0 <= i < new_ring.len()
                implies arena.holds(#[trigger] new_ring[i]) by {
                if i > 0 {
                    assert(old(arena).holds(ring[i - 1]));
                }
            }
            assert forall|i: int| 0 <= i < new_ring.len() implies #[trigger] arena.flink_of(
                new_ring[i],
            ) == self.ring_at(i + 1) by {
                if i > 0 {
                    assert(old(arena).holds(ring[i - 1]));
                    assert(old(arena).flink_of(ring[i - 1]) == old(self).ring_at(i));
                }
            }
            assert forall|i: int| 0 <= i < new_ring.len() implies #[trigger] arena.blink_of(
                new_ring[i],
            ) == self.ring_at(i - 1) by {
                if i > 0 {
                    assert(old(arena).holds(ring[i - 1]));
                    assert(old(arena).blink_of(ring[i - 1]) == old(self).ring_at(i - 2));
                }
            }
            assert(old(self).footprint().contains(end_marker));
            if n > 0 {
                assert(ring.to_set().contains(ring[0]));
            }
        }
    }

    /// The ring is linked but for the backward link of the header, which
    /// may not hold the address of the last element yet. This is how the
    /// list stands while elements are linked at its back one after the other
    /// and the header is written once at the end.
    pub open spec fn wf_but_last(&self, arena: &NtListArena<E, L>) -> bool {
        &&& arena.wf()
        &&& self.end_marker_address() < arena.slot_count()
        &&& !arena.holds(self.end_marker_address())
        &&& !arena.is_free(self.end_marker_address())
        &&& self@.no_duplicates()
        &&& forall|i: int| 0 <= i < self@.len() ==> arena.holds(#[trigger] self@[i])
        &&& arena.flink_of(self.end_marker_address()) == self.ring_at(0)
        &&& forall|i: int|
            0 <= i < self@.len() ==> #[trigger] arena.flink_of(self@[i]) == self.ring_at(i + 1)
        &&& forall|i: int|
            0 <= i < self@.len() ==> #[trigger] arena.blink_of(self@[i]) == self.ring_at(i - 1)
    }

    /// A well-formed list is linked but for nothing.
    pub proof fn lemma_wf_but_last(&self, arena: &NtListArena<E, L>)
        requires
            self.wf(arena),
        ensures
            self.wf_but_last(arena),
    {
    }

    /// What happens to slots outside of the list does not reach a list that
    /// is linked but for the backward link of the header.
    pub proof fn lemma_wf_but_last_frame(
        &self,
        before: &NtListArena<E, L>,
        after: &NtListArena<E, L>,
    )
        requires
            self.wf_but_last(before),
            after.wf(),
            before.slot_count() <= after.slot_count(),
            forall|a: usize| self.footprint().contains(a) ==> #[trigger] after.same_slot(before, a),
        ensures
            self.wf_but_last(after),
            self.elements(after) == self.elements(before),
    {
        let end_marker = self.end_marker_address();
        assert(self.footprint().contains(end_marker));
        assert(after.same_slot(before, end_marker));
        assert forall|i: int| 0 <= i < self@.len() implies after.same_slot(
            before,
            #[trigger] self@[i],
        ) by {
            assert(self@.to_set().contains(self@[i]));
            assert(self.footprint().contains(self@[i]));
        }
        assert forall|i: int| 0 <= i < self@.len() implies after.holds(#[trigger] self@[i]) by {
            assert(before.holds(self@[i]));
            assert(after.same_slot(before, self@[i]));
        }
        assert forall|i: int| 0 <= i < self@.len() implies #[trigger] after.flink_of(self@[i])
            == self.ring_at(i + 1) by {
            assert(after.same_slot(before, self@[i]));
            assert(before.flink_of(self@[i]) == self.ring_at(i + 1));
        }
        assert forall|i: int| 0 <= i < self@.len() implies #[trigger] after.blink_of(self@[i])
            == self.ring_at(i - 1) by {
            assert(after.same_slot(before, self@[i]));
            assert(before.blink_of(self@[i]) == self.ring_at(i - 1));
        }
        assert forall|i: int| 0 <= i < self@.len() implies after.element_at(self@[i])
            == before.element_at(self@[i]) by {
            assert(after.same_slot(before, self@[i]));
            assert(before.holds(self@[i]));
        }
        assert(self.elements(after) =~= self.elements(before));
    }

    /// Links the entry in slot `entry` behind `previous`, the last position
    /// of the ring, without writing the header's backward link.
    pub(crate) fn link_behind(
        &mut self,
        arena: &mut NtListArena<E, L>,
        previous: usize,
        entry: usize,
    )
        requires
            old(self).wf_but_last(old(arena)),
            previous == old(self).ring_at(old(self)@.len() - 1),
            old(arena).holds(entry),
            !old(self)@.contains(entry),
        ensures
            final(self).wf_but_last(final(arena)),
            final(self)@ == old(self)@.push(entry),
            final(self).end_marker_address() == old(self).end_marker_address(),
            final(arena).same_elements(old(arena)),
    {
        let end_marker = self.end_marker;
        let ghost ring = self.ring@;
        let ghost n = ring.len() as int;
        proof {
            if n > 0 {
                assert(arena.holds(ring[n - 1]));
            }
        }
        arena.set_flink(entry, end_marker);
        arena.set_blink(entry, previous);
        arena.set_flink(previous, entry);
        self.ring = Ghost(ring.push(entry));
        proof {
            let new_ring = self@;
            assert(new_ring.no_duplicates());
            assert forall|i: int| 0 <= i < new_ring.len()
                implies arena.holds(#[trigger] new_ring[i]) by {
                if i < n {
                    assert(old(arena).holds(ring[i]));
                }
            }
            assert forall|i: int| 0 <= i < new_ring.len() implies #[trigger] arena.flink_of(
                new_ring[i],
            ) == self.ring_at(i + 1) by {
                if i < n {
                    assert(old(arena).holds(ring[i]));
                    assert(old(arena).flink_of(ring[i]) == old(self).ring_at(i + 1));
                }
            }
            assert forall|i: int| 0 <= i < new_ring.len() implies #[trigger] arena.blink_of(
                new_ring[i],
            ) == self.ring_at(i - 1) by {
                if i < n {
                    assert(old(arena).holds(ring[i]));
                    assert(old(arena).blink_of(ring[i]) == old(self).ring_at(i - 1));
                }
            }
        }
    }

    /// Writes the backward link of the header, which closes the ring behind
    /// `last`, its last position.
    pub(crate) fn close_behind(&self, arena: &mut NtListArena<E, L>, last: usize)
        requires
            self.wf_but_last(old(arena)),
            last == self.ring_at(self@.len() - 1),
        ensures
            self.wf(final(arena)),
            final(arena).same_elements(old(arena)),
    {
        arena.set_blink(self.end_marker, last);
        proof {
            assert forall|i: int| 0 <= i < self@.len() implies arena.holds(#[trigger] self@[i]) by {
                assert(old(arena).holds(self@[i]));
            }
            assert forall|i: int| 0 <= i < self@.len() implies #[trigger] arena.flink_of(self@[i])
                == self.ring_at(i + 1) by {
                assert(old(arena).holds(self@[i]));
                assert(old(arena).flink_of(self@[i]) == self.ring_at(i + 1));
            }
            assert forall|i: int| 0 <= i < self@.len() implies #[trigger] arena.blink_of(self@[i])
                == self.ring_at(i - 1) by {
                assert(old(arena).holds(self@[i]));
                assert(old(arena).blink_of(self@[i]) == self.ring_at(i - 1));
            }
        }
    }

    /// Unlinks the entry at position `index` of the ring, which is the one
    /// in slot `entry`: its two neighbours get linked to each other. The
    /// entry keeps its own links, and the element stays in its slot.
    pub(crate) fn remove(
        &mut self,
        arena: &mut NtListArena<E, L>,
        entry: usize,
        Ghost(index): Ghost<int>,
    )
        requires
            old(self).wf(old(arena)),
            0 <= index < old(self)@.len(),
            old(self)@[index] == entry,
        ensures
            final(self).wf(final(arena)),
            final(self)@ == old(self)@.remove(index),
            final(self).end_marker_address() == old(self).end_marker_address(),
            final(arena).same_elements(old(arena)),
            final(arena).same_links_outside(old(arena), old(self).footprint().remove(entry)),
            final(arena).flink_of(entry) == old(arena).flink_of(entry),
            final(arena).blink_of(entry) == old(arena).blink_of(entry),
    {
        let ghost ring = self.ring@;
        let ghost n = ring.len() as int;
        let ghost end_marker = self.end_marker;
        proof {
            assert(arena.holds(ring[index]));
            assert(arena.flink_of(ring[index]) == self.ring_at(index + 1));
            assert(arena.blink_of(ring[index]) == self.ring_at(index - 1));
            if index + 1 < n {
                assert(arena.holds(ring[index + 1]));
            }
            if index > 0 {
                assert(arena.holds(ring[index - 1]));
            }
        }
        let old_flink = arena.flink(entry);
        let old_blink = arena.blink(entry);
        arena.set_blink(old_flink, old_blink);
        arena.set_flink(old_blink, old_flink);
        self.ring = Ghost(ring.remove(index));
        proof {
            let new_ring = self@;
            assert forall|i: int| 0 <= i < new_ring.len() implies new_ring[i] == (if i < index {
                ring[i]
            } else {
                ring[i + 1]
            }) by {}
            assert(new_ring.no_duplicates());
            assert forall|i: int| 0 <= i < new_ring.len()
                implies arena.holds(#[trigger] new_ring[i]) by {
                if i < index {
                    assert(old(arena).holds(ring[i]));
                } else {
                    assert(old(arena).holds(ring[i + 1]));
                }
            }
            assert forall|i: int| 0 <= i < new_ring.len() implies #[trigger] arena.flink_of(
                new_ring[i],
            ) == self.ring_at(i + 1) by {
                if i < index {
                    assert(old(arena).holds(ring[i]));
                    assert(old(arena).flink_of(ring[i]) == old(self).ring_at(i + 1));
                } else {
                    assert(old(arena).holds(ring[i + 1]));
                    assert(old(arena).flink_of(ring[i + 1]) == old(self).ring_at(i + 2));
                }
            }
            assert forall|i: int| 0 <= i < new_ring.len() implies #[trigger] arena.blink_of(
                new_ring[i],
            ) == self.ring_at(i - 1) by {
                if i < index {
                    assert(old(arena).holds(ring[i]));
                    assert(old(arena).blink_of(ring[i]) == old(self).ring_at(i - 1));
                } else {
                    assert(old(arena).holds(ring[i + 1]));
                    assert(old(arena).blink_of(ring[i + 1]) == old(self).ring_at(i));
                }
            }
            assert(old(self).footprint().contains(end_marker));
            if index + 1 < n {
                assert(ring.to_set().contains(ring[index + 1]));
            }
            if index > 0 {
                assert(ring.to_set().contains(ring[index - 1]));
            }
        }
    }

    /// Removes the last element from the list and returns its address, or
    /// `None` if the list is empty. The element stays in its slot.
    pub fn pop_back(&mut self, arena: &mut NtListArena<E, L>) -> (element: Option<usize>)
        requires
            old(self).wf(old(arena)),
        ensures
            final(self).wf(final(arena)),
            final(self).end_marker_address() == old(self).end_marker_address(),
            final(arena).same_elements(old(arena)),
            final(arena).same_links_outside(old(arena), old(self).footprint()),
            old(self)@.len() == 0 ==> element.is_none() && final(self)@ == old(self)@,
            old(self)@.len() > 0 ==> element == Some(old(self)@.last()),
            old(self)@.len() > 0 ==> final(self)@ == old(self)@.drop_last(),
            old(self)@.len() > 0 ==> final(self)@.len() == old(self)@.len() - 1,
    {
        if self.is_empty(arena) {
            None
        } else {
            let entry = arena.blink(self.end_marker);
            self.remove(arena, entry, Ghost(self@.len() - 1));
            proof {
                assert(old(self)@.remove(old(self)@.len() - 1) =~= old(self)@.drop_last());
            }
            Some(entry)
        }
    }

    /// Removes the first element from the list and returns its address, or
    /// `None` if the list is empty. The element stays in its slot.
    pub fn pop_front(&mut self, arena: &mut NtListArena<E, L>) -> (element: Option<usize>)
        requires
            old(self).wf(old(arena)),
        ensures
            final(self).wf(final(arena)),
            final(self).end_marker_address() == old(self).end_marker_address(),
            final(arena).same_elements(old(arena)),
            final(arena).same_links_outside(old(arena), old(self).footprint()),
            old(self)@.len() == 0 ==> element.is_none() && final(self)@ == old(self)@,
            old(self)@.len() > 0 ==> element == Some(old(self)@.first()),
            old(self)@.len() > 0 ==> final(self)@ == old(self)@.drop_first(),
            old(self)@.len() > 0 ==> final(self)@.len() == old(self)@.len() - 1,
    {
        if self.is_empty(arena) {
            None
        } else {
            let entry = arena.flink(self.end_marker);
            self.remove(arena, entry, Ghost(0));
            proof {
                assert(old(self)@.remove(0) =~= old(self)@.drop_first());
            }
            Some(entry)
        }
    }

    /// Provides a reference to the first element, or `None` if the list is
    /// empty.
    pub fn front<'a>(&self, arena: &'a NtListArena<E, L>) -> (element: Option<&'a E>)
        requires
            self.wf(arena),
        ensures
            self@.len() == 0 ==> element.is_none(),
            self@.len() > 0 ==> element.is_some() && *element.unwrap() == arena.element_at(
                self@.first(),
            ),
    {
        if self.is_empty(arena) {
            None
        } else {
            proof {
                assert(arena.holds(self@[0]));
            }
            Some(arena.get(arena.flink(self.end_marker)))
        }
    }

    /// Provides a reference to the last element, or `None` if the list is
    /// empty.
    pub fn back<'a>(&self, arena: &'a NtListArena<E, L>) -> (element: Option<&'a E>)
        requires
            self.wf(arena),
        ensures
            self@.len() == 0 ==> element.is_none(),
            self@.len() > 0 ==> element.is_some() && *element.unwrap() == arena.element_at(
                self@.last(),
            ),
    {
        if self.is_empty(arena) {
            None
        } else {
            proof {
                assert(arena.holds(self@[self@.len() - 1]));
            }
            Some(arena.get(arena.blink(self.end_marker)))
        }
    }

    /// What [`clear`](Self::clear) makes of the head `before` in the arena
    /// `before_arena`: the same header, empty, with both links of the header
    /// pointing at the header itself, and nothing else changed.
    pub open spec fn cleared(
        &self,
        arena: &NtListArena<E, L>,
        before: &Self,
        before_arena: &NtListArena<E, L>,
    ) -> bool {
        &&& self@ == Seq::<usize>::empty()
        &&& self.end_marker_address() == before.end_marker_address()
        &&& arena.flink_of(self.end_marker_address()) == self.end_marker_address()
        &&& arena.blink_of(self.end_marker_address()) == self.end_marker_address()
        &&& arena.slot_count() == before_arena.slot_count()
        &&& arena.same_elements(before_arena)
        &&& arena.agrees_except(before_arena, before.end_marker_address())
    }

    /// Removes all elements from the list by resetting the links of the
    /// header. The entries of the elements keep their links, and the
    /// elements stay in their slots.
    pub fn clear(&mut self, arena: &mut NtListArena<E, L>)
        requires
            old(self).wf(old(arena)),
        ensures
            final(self).wf(final(arena)),
            final(self).cleared(final(arena), old(self), old(arena)),
    {
        let end_marker = self.end_marker;
        arena.set_flink(end_marker, end_marker);
        arena.set_blink(end_marker, end_marker);
        self.ring = Ghost(Seq::empty());
    }

    /// Clearing a list twice leaves it as clearing it once does: the second
    /// call changes no link and no element.
    pub proof fn lemma_clear_idempotent(
        &self,
        arena: &NtListArena<E, L>,
        once: &Self,
        once_arena: &NtListArena<E, L>,
        twice: &Self,
        twice_arena: &NtListArena<E, L>,
    )
        requires
            self.wf(arena),
            once.cleared(once_arena, self, arena),
            twice.cleared(twice_arena, once, once_arena),
        ensures
            twice@ == once@,
            twice.end_marker_address() == once.end_marker_address(),
            twice_arena.same_links(once_arena),
            twice_arena.same_elements(once_arena),
    {
    }

    /// The address that is reached from `start` by following `steps`
    /// forward links.
    pub open spec fn walk_forward(arena: &NtListArena<E, L>, start: usize, steps: nat) -> usize
        decreases steps,
    {
        if steps == 0 {
            start
        } else {
            arena.flink_of(Self::walk_forward(arena, start, (steps - 1) as nat))
        }
    }

    /// The address that is reached from `start` by following `steps`
    /// backward links.
    pub open spec fn walk_backward(arena: &NtListArena<E, L>, start: usize, steps: nat) -> usize
        decreases steps,
    {
        if steps == 0 {
            start
        } else {
            arena.blink_of(Self::walk_backward(arena, start, (steps - 1) as nat))
        }
    }

    /// The links of a well-formed list are consistent: for the entry at
    /// every position of the ring, the header's included (position `-1`),
    /// the backward link of the entry that its forward link names points
    /// back at it, and so does the forward link of the entry that its
    /// backward link names.
    pub proof fn lemma_links_consistent(&self, arena: &NtListArena<E, L>, i: int)
        requires
            self.wf(arena),
            -1 <= i < self@.len(),
        ensures
            arena.blink_of(arena.flink_of(self.ring_at(i))) == self.ring_at(i),
            arena.flink_of(arena.blink_of(self.ring_at(i))) == self.ring_at(i),
    {
        let n = self@.len() as int;
        if i >= 0 {
            assert(arena.flink_of(self@[i]) == self.ring_at(i + 1));
            assert(arena.blink_of(self@[i]) == self.ring_at(i - 1));
        }
        if i + 1 < n {
            assert(arena.blink_of(self@[i + 1]) == self.ring_at(i));
        }
        if i - 1 >= 0 {
            assert(arena.flink_of(self@[i - 1]) == self.ring_at(i));
        }
        if i == -1 && n > 0 {
            assert(arena.flink_of(self@[n - 1]) == self.ring_at(n));
        }
    }

    /// Walking forward from the header passes the elements in list order
    /// and is back at the header after one step more than the list has
    /// elements, and not before: `steps` steps lead to the position before
    /// `steps` of the ring.
    pub proof fn lemma_walk_forward(&self, arena: &NtListArena<E, L>, steps: nat)
        requires
            self.wf(arena),
            steps <= self@.len() + 1,
        ensures
            Self::walk_forward(arena, self.end_marker_address(), steps) == self.ring_at(steps - 1),
            0 < steps <= self@.len() ==> Self::walk_forward(
                arena,
                self.end_marker_address(),
                steps,
            ) != self.end_marker_address(),
            steps == self@.len() + 1 ==> Self::walk_forward(
                arena,
                self.end_marker_address(),
                steps,
            ) == self.end_marker_address(),
        decreases steps,
    {
        if steps > 0 {
            self.lemma_walk_forward(arena, (steps - 1) as nat);
            if steps >= 2 {
                assert(arena.flink_of(self@[steps - 2]) == self.ring_at(steps - 1));
            }
            if steps <= self@.len() {
                assert(arena.holds(self@[steps - 1]));
            }
        }
    }

    /// Walking backward from the header passes the elements in reverse list
    /// order and is back at the header after one step more than the list
    /// has elements, and not before.
    pub proof fn lemma_walk_backward(&self, arena: &NtListArena<E, L>, steps: nat)
        requires
            self.wf(arena),
            steps <= self@.len() + 1,
        ensures
            Self::walk_backward(arena, self.end_marker_address(), steps) == if steps == 0 {
                self.end_marker_address()
            } else {
                self.ring_at(self@.len() - steps)
            },
            0 < steps <= self@.len() ==> Self::walk_backward(
                arena,
                self.end_marker_address(),
                steps,
            ) != self.end_marker_address(),
            steps == self@.len() + 1 ==> Self::walk_backward(
                arena,
                self.end_marker_address(),
                steps,
            ) == self.end_marker_address(),
        decreases steps,
    {
        if steps > 0 {
            self.lemma_walk_backward(arena, (steps - 1) as nat);
            if steps >= 2 {
                assert(arena.blink_of(self@[self@.len() - steps + 1]) == self.ring_at(
                    self@.len() - steps,
                ));
            }
            if steps <= self@.len() {
                assert(arena.holds(self@[self@.len() - steps]));
            }
        }
    }

    /// Returns an iterator that yields a reference to each element of the
    /// list, from either end.
    pub fn iter<'a>(&self, arena: &'a NtListArena<E, L>) -> (iter: Iter<'a, E, L>)
        requires
            self.wf(arena),
        ensures
            iter.wf(),
            iter@ == self@,
            iter.arena() == arena,
    {
        let flink = arena.flink(self.end_marker);
        let blink = arena.blink(self.end_marker);
        proof {
            assert forall|i: int| 0 <= i < self@.len() - 1 implies #[trigger] arena.flink_of(
                self@[i],
            ) == self@[i + 1] by {
                assert(arena.flink_of(self@[i]) == self.ring_at(i + 1));
            }
            assert forall|i: int| 1 <= i < self@.len() implies #[trigger] arena.blink_of(
                self@[i],
            ) == self@[i - 1] by {
                assert(arena.blink_of(self@[i]) == self.ring_at(i - 1));
            }
        }
        Iter { arena, head: self.end_marker, flink, blink, remaining: Ghost(self@) }
    }

    /// Returns an iterator that yields a mutable reference to each element
    /// of the list, from either end. The links stay as they are.
    pub fn iter_mut<'a>(&self, arena: &'a mut NtListArena<E, L>) -> (iter: IterMut<'a, E, L>)
        requires
            self.wf(old(arena)),
        ensures
            iter.wf(),
            iter@ == self@,
            *iter.arena == *old(arena),
            *final(iter.arena) == *final(arena),
    {
        let flink = arena.flink(self.end_marker);
        let blink = arena.blink(self.end_marker);
        proof {
            assert forall|i: int| 0 <= i < self@.len() - 1 implies #[trigger] arena.flink_of(
                self@[i],
            ) == self@[i + 1] by {
                assert(arena.flink_of(self@[i]) == self.ring_at(i + 1));
            }
            assert forall|i: int| 1 <= i < self@.len() implies #[trigger] arena.blink_of(
                self@[i],
            ) == self@[i - 1] by {
                assert(arena.blink_of(self@[i]) == self.ring_at(i - 1));
            }
        }
        IterMut { arena, head: self.end_marker, flink, blink, remaining: Ghost(self@) }
    }

    /// Provides a mutable reference to the first element, or `None` if the
    /// list is empty.
    pub fn front_mut<'a>(&self, arena: &'a mut NtListArena<E, L>) -> (element: Option<&'a mut E>)
        requires
            self.wf(old(arena)),
        ensures
            self.wf(final(arena)),
            final(arena).same_links(old(arena)),
            final(arena).same_occupancy(old(arena)),
            self@.len() == 0 ==> element.is_none() && *final(arena) == *old(arena),
            self@.len() > 0 ==> element.is_some() && *element.unwrap() == old(arena).element_at(
                self@.first(),
            ) && final(arena).element_at(self@.first()) == *final(element.unwrap())
                && final(arena).agrees_except(old(arena), self@.first()),
    {
        if self.is_empty(arena) {
            None
        } else {
            proof {
                assert(arena.holds(self@[0]));
            }
            let first = arena.flink(self.end_marker);
            let element = arena.get_mut(first);
            Some(element)
        }
    }

    /// Provides a mutable reference to the last element, or `None` if the
    /// list is empty.
    pub fn back_mut<'a>(&self, arena: &'a mut NtListArena<E, L>) -> (element: Option<&'a mut E>)
        requires
            self.wf(old(arena)),
        ensures
            self.wf(final(arena)),
            final(arena).same_links(old(arena)),
            final(arena).same_occupancy(old(arena)),
            self@.len() == 0 ==> element.is_none() && *final(arena) == *old(arena),
            self@.len() > 0 ==> element.is_some() && *element.unwrap() == old(arena).element_at(
                self@.last(),
            ) && final(arena).element_at(self@.last()) == *final(element.unwrap())
                && final(arena).agrees_except(old(arena), self@.last()),
    {
        if self.is_empty(arena) {
            None
        } else {
            proof {
                assert(arena.holds(self@[self@.len() - 1]));
            }
            let last = arena.blink(self.end_marker);
            let element = arena.get_mut(last);
            Some(element)
        }
    }

    /// A head that is well-formed in one arena is well-formed in every arena
    /// that has the same links, holds elements in the same slots and has the
    /// same free slots.
    pub proof fn lemma_wf_same_links(&self, before: &NtListArena<E, L>, after: &NtListArena<E, L>)
        requires
            self.wf(before),
            after.wf(),
            after.same_links(before),
            after.same_occupancy(before),
        ensures
            self.wf(after),
    {
        assert forall|i: int| 0 <= i < self@.len() implies after.holds(#[trigger] self@[i]) by {
            assert(before.holds(self@[i]));
        }
        assert forall|i: int| 0 <= i < self@.len() implies #[trigger] after.flink_of(self@[i])
            == self.ring_at(i + 1) by {
            assert(before.holds(self@[i]));
            assert(before.flink_of(self@[i]) == self.ring_at(i + 1));
        }
        assert forall|i: int| 0 <= i < self@.len() implies #[trigger] after.blink_of(self@[i])
            == self.ring_at(i - 1) by {
            assert(before.holds(self@[i]));
            assert(before.blink_of(self@[i]) == self.ring_at(i - 1));
        }
    }

    /// A head that is well-formed in one arena is well-formed, with the same
    /// elements, in every arena that agrees with the first on the slots of
    /// the list: what happens to other slots does not reach the list.
    pub proof fn lemma_wf_frame(&self, before: &NtListArena<E, L>, after: &NtListArena<E, L>)
        requires
            self.wf(before),
            after.wf(),
            before.slot_count() <= after.slot_count(),
            forall|a: usize| self.footprint().contains(a) ==> #[trigger] after.same_slot(before, a),
        ensures
            self.wf(after),
            self.elements(after) == self.elements(before),
    {
        let end_marker = self.end_marker_address();
        assert(self.footprint().contains(end_marker));
        assert(after.same_slot(before, end_marker));
        assert forall|i: int| 0 <= i < self@.len() implies after.same_slot(
            before,
            #[trigger] self@[i],
        ) by {
            assert(self@.to_set().contains(self@[i]));
            assert(self.footprint().contains(self@[i]));
        }
        assert forall|i: int| 0 <= i < self@.len() implies after.holds(#[trigger] self@[i]) by {
            assert(before.holds(self@[i]));
            assert(after.same_slot(before, self@[i]));
        }
        assert forall|i: int| 0 <= i < self@.len() implies #[trigger] after.flink_of(self@[i])
            == self.ring_at(i + 1) by {
            assert(after.same_slot(before, self@[i]));
            assert(before.flink_of(self@[i]) == self.ring_at(i + 1));
        }
        assert forall|i: int| 0 <= i < self@.len() implies #[trigger] after.blink_of(self@[i])
            == self.ring_at(i - 1) by {
            assert(after.same_slot(before, self@[i]));
            assert(before.blink_of(self@[i]) == self.ring_at(i - 1));
        }
        assert forall|i: int| 0 <= i < self@.len() implies after.element_at(self@[i])
            == before.element_at(self@[i]) by {
            assert(after.same_slot(before, self@[i]));
            assert(before.holds(self@[i]));
        }
        assert(self.elements(after) =~= self.elements(before));
    }

    /// A list has no more elements than its arena has slots.
    pub proof fn lemma_len_bounded(&self, arena: &NtListArena<E, L>)
        requires
            self.wf(arena),
        ensures
            self@.len() < arena.slot_count(),
    {
        let ring = self@.push(self.end_marker_address());
        assert forall|i: int| 0 <= i < ring.len()
            implies (#[trigger] ring[i]) < arena.slot_count() by {
            if i < self@.len() {
                assert(arena.holds(self@[i]));
            }
        }
        assert(ring.no_duplicates()) by {
            assert forall|i: int, j: int|
                0 <= i < ring.len() && 0 <= j < ring.len() && i != j implies ring[i] != ring[j] by {
                if i < self@.len() {
                    assert(arena.holds(self@[i]));
                }
                if j < self@.len() {
                    assert(arena.holds(self@[j]));
                }
            }
        }
        lemma_distinct_addresses_bounded(ring, arena.slot_count());
    }

    /// Counts all elements and returns the length of the list.
    pub fn len(&self, arena: &NtListArena<E, L>) -> (count: usize)
        requires
            self.wf(arena),
        ensures
            count == self@.len(),
    {
        proof {
            self.lemma_len_bounded(arena);
            arena.lemma_slot_count_fits();
        }
        let mut iter = self.iter(arena);
        let mut count: usize = 0;
        loop
            invariant
                iter.wf(),
                count + iter@.len() == self@.len(),
                self@.len() < usize::MAX,
            ensures
                count == self@.len(),
            decreases iter@.len(),
        {
            match iter.next() {
                Some(_) => {
                    count = count + 1;
                },
                None => {
                    break ;
                },
            }
        }
        count
    }

    /// Moves all elements of `other` to the end of the list, in their
    /// order, by relinking the ends of the two rings. After this, `other` is
    /// empty. No entry but the first and last ones of the two lists is
    /// touched.
    pub fn append(&mut self, arena: &mut NtListArena<E, L>, other: &mut Self)
        requires
            old(self).wf(old(arena)),
            old(other).wf(old(arena)),
            old(self).end_marker_address() != old(other).end_marker_address(),
            forall|i: int, j: int|
                0 <= i < old(self)@.len() && 0 <= j < old(other)@.len() ==> old(self)@[i] != old(
                    other,
                )@[j],
        ensures
            final(self).wf(final(arena)),
            final(other).wf(final(arena)),
            final(self)@ == old(self)@ + old(other)@,
            final(self)@.len() == old(self)@.len() + old(other)@.len(),
            final(other)@ == Seq::<usize>::empty(),
            final(self).end_marker_address() == old(self).end_marker_address(),
            final(other).end_marker_address() == old(other).end_marker_address(),
            final(arena).same_elements(old(arena)),
            final(arena).same_links_outside(
                old(arena),
                old(self).footprint().union(old(other).footprint()),
            ),
            old(other)@.len() == 0 ==> final(self)@ == old(self)@ && final(arena).same_links(
                old(arena),
            ),
    {
        if other.is_empty(arena) {
            proof {
                assert(old(self)@ + old(other)@ =~= old(self)@);
            }
            return ;
        }
        let ghost ring = self.ring@;
        let ghost tail = other.ring@;
        let ghost n = ring.len() as int;
        let ghost m = tail.len() as int;
        let end_marker = self.end_marker;
        let other_end_marker = other.end_marker;
        proof {
            if n > 0 {
                assert(arena.holds(ring[n - 1]));
            }
            assert(arena.holds(tail[0]));
            assert(arena.holds(tail[m - 1]));
        }
        let self_blink = arena.blink(end_marker);
        let other_flink = arena.flink(other_end_marker);
        let other_blink = arena.blink(other_end_marker);

        // The last element of `self` is followed by the first element of `other`,
        // which it precedes; the last element of `other` is followed by the end
        // marker of `self`, whose last element it becomes.
        arena.set_flink(self_blink, other_flink);
        arena.set_blink(other_flink, self_blink);
        arena.set_flink(other_blink, end_marker);
        arena.set_blink(end_marker, other_blink);

        // Clear `other` without touching any of its elements.
        arena.set_flink(other_end_marker, other_end_marker);
        arena.set_blink(other_end_marker, other_end_marker);
        self.ring = Ghost(ring + tail);
        other.ring = Ghost(Seq::empty());
        proof {
            let joined = self@;
            assert forall|i: int| 0 <= i < joined.len() implies joined[i] == (if i < n {
                ring[i]
            } else {
                tail[i - n]
            }) by {}
            assert(joined.no_duplicates());
            assert forall|i: int| 0 <= i < joined.len()
                implies arena.holds(#[trigger] joined[i]) by {
                if i < n {
                    assert(old(arena).holds(ring[i]));
                } else {
                    assert(old(arena).holds(tail[i - n]));
                }
            }
            assert forall|i: int| 0 <= i < joined.len() implies #[trigger] arena.flink_of(
                joined[i],
            ) == self.ring_at(i + 1) by {
                if i < n {
                    assert(old(arena).holds(ring[i]));
                    assert(old(arena).flink_of(ring[i]) == old(self).ring_at(i + 1));
                } else {
                    assert(old(arena).holds(tail[i - n]));
                    assert(old(arena).flink_of(tail[i - n]) == old(other).ring_at(i - n + 1));
                }
            }
            assert forall|i: int| 0 <= i < joined.len() implies #[trigger] arena.blink_of(
                joined[i],
            ) == self.ring_at(i - 1) by {
                if i < n {
                    assert(old(arena).holds(ring[i]));
                    assert(old(arena).blink_of(ring[i]) == old(self).ring_at(i - 1));
                } else {
                    assert(old(arena).holds(tail[i - n]));
                    assert(old(arena).blink_of(tail[i - n]) == old(other).ring_at(i - n - 1));
                }
            }
            assert(old(self).footprint().contains(end_marker));
            assert(old(other).footprint().contains(other_end_marker));
            if n > 0 {
                assert(ring.to_set().contains(ring[n - 1]));
            }
            assert(tail.to_set().contains(tail[0]));
            assert(tail.to_set().contains(tail[m - 1]));
        }
    }

    /// Retains only the elements for which `f` returns `true`: every other
    /// element is unlinked and stays in its slot. Each element is visited
    /// once, in list order, and the retained elements keep their order.
    pub fn retain<F>(&mut self, arena: &mut NtListArena<E, L>, f: F) where F: Fn(&E) -> bool
        requires
            old(self).wf(old(arena)),
            forall|i: int|
                0 <= i < old(self)@.len() ==> call_requires(
                    f,
                    (&old(arena).element_at(#[trigger] old(self)@[i]),),
                ),
        ensures
            final(self).wf(final(arena)),
            final(self).end_marker_address() == old(self).end_marker_address(),
            final(arena).same_elements(old(arena)),
            final(arena).same_links_outside(old(arena), old(self).footprint()),
            exists|keep: Seq<bool>|
                {
                    &&& keep.len() == old(self)@.len()
                    &&& forall|i: int|
                        0 <= i < keep.len() ==> call_ensures(
                            f,
                            (&old(arena).element_at(old(self)@[i]),),
                            #[trigger] keep[i],
                        )
                    &&& final(self)@ == retained(old(self)@, keep)
                },
    {
        self.retain_entries(arena, f, false);
    }

    /// Unlinks every element for which `f` returns `false`, visiting each
    /// element once, in list order. With `release`, an unlinked element is
    /// dropped at once and its slot freed; without, it stays in its slot.
    pub(crate) fn retain_entries<F>(
        &mut self,
        arena: &mut NtListArena<E, L>,
        f: F,
        release: bool,
    ) where F: Fn(&E) -> bool
        requires
            old(self).wf(old(arena)),
            forall|i: int|
                0 <= i < old(self)@.len() ==> call_requires(
                    f,
                    (&old(arena).element_at(#[trigger] old(self)@[i]),),
                ),
        ensures
            final(self).wf(final(arena)),
            final(self).end_marker_address() == old(self).end_marker_address(),
            !release ==> final(arena).same_elements(old(arena)),
            final(arena).same_links_outside(old(arena), old(self).footprint()),
            forall|a: usize| #[trigger]
                final(arena).holds(a) ==> old(arena).holds(a) && final(arena).element_at(a) == old(
                    arena,
                ).element_at(a),
            release ==> forall|a: usize| #[trigger]
                final(arena).holds(a) && old(self)@.contains(a) ==> final(self)@.contains(a),
            exists|keep: Seq<bool>|
                {
                    &&& keep.len() == old(self)@.len()
                    &&& forall|i: int|
                        0 <= i < keep.len() ==> call_ensures(
                            f,
                            (&old(arena).element_at(old(self)@[i]),),
                            #[trigger] keep[i],
                        )
                    &&& final(self)@ == retained(old(self)@, keep)
                },
    {
        let ghost ring = self.ring@;
        let ghost n = ring.len() as int;
        let ghost mut keep: Seq<bool> = Seq::empty();
        let ghost mut visited: int = 0;
        let ghost mut position: int = 0;
        let end_marker = self.end_marker;
        let mut current = arena.flink(end_marker);
        proof {
            assert(ring.take(0) =~= Seq::<usize>::empty());
            assert(ring.skip(0) =~= ring);
            assert(retained(ring.take(0), keep) + ring.skip(0) =~= ring);
        }
        while current != end_marker
            invariant
                self.wf(arena),
                self.end_marker == end_marker,
                end_marker == old(self).end_marker_address(),
                ring == old(self)@,
                n == ring.len(),
                0 <= visited <= n,
                keep.len() == visited,
                position == retained(ring.take(visited), keep).len(),
                self@ == retained(ring.take(visited), keep) + ring.skip(visited),
                current == self.ring_at(position),
                !release ==> arena.same_elements(old(arena)),
                arena.same_links_outside(old(arena), old(self).footprint()),
                forall|a: usize| #[trigger]
                    arena.holds(a) ==> old(arena).holds(a) && arena.element_at(a) == old(
                        arena,
                    ).element_at(a),
                release ==> forall|a: usize| #[trigger]
                    arena.holds(a) && ring.contains(a) ==> self@.contains(a),
                forall|a: usize|
                    self.footprint().contains(a) ==> #[trigger] old(self).footprint().contains(a),
                forall|i: int|
                    0 <= i < visited ==> call_ensures(
                        f,
                        (&old(arena).element_at(ring[i]),),
                        #[trigger] keep[i],
                    ),
                forall|i: int|
                    0 <= i < n ==> call_requires(f, (&old(arena).element_at(#[trigger] ring[i]),)),
            decreases n - visited,
        {
            proof {
                assert(position < self@.len()) by {
                    if position >= self@.len() {
                        assert(self.ring_at(position) == end_marker);
                    }
                }
                assert(visited < n);
                assert(self@[position] == ring.skip(visited)[0]);
                assert(current == ring[visited]);
                assert(arena.holds(self@[position]));
                assert(arena.flink_of(self@[position]) == self.ring_at(position + 1));
                assert(arena.element_at(current) == old(arena).element_at(current));
            }
            let next = arena.flink(current);
            let kept = f(arena.get(current));
            proof {
                lemma_retained_push(ring.take(visited), keep, ring[visited], kept);
                assert(ring.take(visited).push(ring[visited]) =~= ring.take(visited + 1));
                assert(ring.skip(visited) =~= seq![ring[visited]] + ring.skip(visited + 1));
            }
            if !kept {
                let ghost before = self@;
                let ghost footprint = self.footprint();
                self.remove(arena, current, Ghost(position));
                proof {
                    assert(before.remove(position) =~= retained(ring.take(visited), keep)
                        + ring.skip(visited + 1));
                    assert forall|a: usize| self.footprint().contains(a)
                        implies footprint.contains(a) && a != current by {
                        if a != end_marker {
                            let k = choose|k: int| 0 <= k < self@.len() && self@[k] == a;
                            if k < position {
                                assert(before[k] == a);
                            } else {
                                assert(before[k + 1] == a);
                            }
                            assert(before.to_set().contains(a));
                        } else {
                            assert(!arena.holds(end_marker));
                        }
                    }
                }
                if release {
                    let ghost linked = *arena;
                    let _ = arena.deallocate(current);
                    proof {
                        assert forall|a: usize| self.footprint().contains(a)
                            implies #[trigger] arena.same_slot(&linked, a) by {
                            assert(a != current);
                            if a != end_marker {
                                let k = choose|k: int| 0 <= k < self@.len() && self@[k] == a;
                                assert(linked.holds(self@[k]));
                            }
                        }
                        self.lemma_wf_frame(&linked, arena);
                        assert forall|a: usize| #[trigger]
                            arena.holds(a) && ring.contains(a) implies self@.contains(a) by {
                            assert(linked.holds(a));
                            let k = choose|k: int| 0 <= k < before.len() && before[k] == a;
                            if k < position {
                                assert(self@[k] == a);
                            } else {
                                assert(self@[k - 1] == a);
                            }
                        }
                    }
                }
            } else {
                proof {
                    position = position + 1;
                    assert(self@ =~= retained(ring.take(visited), keep).push(ring[visited])
                        + ring.skip(visited + 1));
                }
            }
            proof {
                keep = keep.push(kept);
                visited = visited + 1;
            }
            current = next;
        }
        proof {
            assert(position >= self@.len()) by {
                if position < self@.len() {
                    assert(arena.holds(self@[position]));
                }
            }
            lemma_retained_len(ring.take(visited), keep);
            assert(visited == n);
            assert(ring.take(n) =~= ring);
            assert(ring.skip(n) =~= Seq::<usize>::empty());
            assert(self@ =~= retained(ring, keep));
        }
    }
}

/// Iterator over the elements of a doubly linked list.
///
/// It keeps one cursor at each end of what is left to yield. When the two
/// cursors stand on the same entry, that entry is the last one: yielding it
/// from either end moves both cursors to the end marker.
pub struct Iter<'a, E: NtListElement<L>, L: NtTypedList<T = NtList>> {
    arena: &'a NtListArena<E, L>,
    head: usize,
    flink: usize,
    blink: usize,
    remaining: Ghost<Seq<usize>>,
}

impl<'a, E, L> View for Iter<'a, E, L> where E: NtListElement<L>, L: NtTypedList<T = NtList> {
    type V = Seq<usize>;

    /// The addresses of the elements that are left to yield, in list order.
    closed spec fn view(&self) -> Seq<usize> {
        self.remaining@
    }
}

impl<'a, E, L> Iter<'a, E, L> where E: NtListElement<L>, L: NtTypedList<T = NtList> {
    /// The arena that the iterator reads.
    pub closed spec fn arena(&self) -> &NtListArena<E, L> {
        self.arena
    }

    /// The elements that are left to yield, in list order.
    pub open spec fn elements(&self) -> Seq<E> {
        Seq::new(self@.len(), |i: int| self.arena().element_at(self@[i]))
    }

    /// The cursors stand at the two ends of what is left to yield, and the
    /// entries in between are linked in that order.
    pub closed spec fn wf(&self) -> bool {
        let rest = self.remaining@;
        &&& rest.no_duplicates()
        &&& !self.arena.holds(self.head)
        &&& forall|i: int| 0 <= i < rest.len() ==> self.arena.holds(#[trigger] rest[i])
        &&& self.flink == if rest.len() > 0 {
            rest.first()
        } else {
            self.head
        }
        &&& self.blink == if rest.len() > 0 {
            rest.last()
        } else {
            self.head
        }
        &&& forall|i: int|
            0 <= i < rest.len() - 1 ==> #[trigger] self.arena.flink_of(rest[i]) == rest[i + 1]
        &&& forall|i: int|
            1 <= i < rest.len() ==> #[trigger] self.arena.blink_of(rest[i]) == rest[i - 1]
    }

    /// Moves both cursors to the end marker: nothing is left to yield.
    fn terminate(&mut self)
        requires
            !old(self).arena.holds(old(self).head),
        ensures
            final(self).wf(),
            final(self)@ == Seq::<usize>::empty(),
            final(self).arena() == old(self).arena(),
    {
        self.flink = self.head;
        self.blink = self.flink;
        self.remaining = Ghost(Seq::empty());
    }

    /// Yields the first of the remaining elements, or `None` if none is
    /// left.
    pub fn next(&mut self) -> (element: Option<&'a E>)
        requires
            old(self).wf(),
        ensures
            final(self).wf(),
            final(self).arena() == old(self).arena(),
            old(self)@.len() == 0 ==> element.is_none() && final(self)@ == old(self)@,
            old(self)@.len() > 0
                ==> element.is_some()
                && *element.unwrap() == old(self).arena().element_at(old(self)@.first())
                && final(self)@ == old(self)@.drop_first(),
            old(self)@.len() > 0
                ==> *element.unwrap() == old(self).elements().first()
                && final(self).elements() == old(self).elements().drop_first(),
    {
        proof {
            if self@.len() > 0 {
                assert(Seq::new(
                    self@.drop_first().len(),
                    |i: int| self.arena().element_at(self@.drop_first()[i]),
                ) =~= self.elements().drop_first());
            }
        }
        let ghost rest = self.remaining@;
        if self.flink == self.head {
            proof {
                if rest.len() > 0 {
                    assert(self.arena.holds(rest[0]));
                }
            }
            None
        } else {
            proof {
                assert(self.arena.holds(rest[0]));
            }
            let element = self.arena.get(self.flink);
            if self.flink == self.blink {
                // The cursors meet: this is the last element.
                proof {
                    if rest.len() > 1 {
                        assert(rest[0] == rest[rest.len() - 1]);
                    }
                    assert(rest.drop_first() =~= Seq::<usize>::empty());
                }
                self.terminate();
            } else {
                proof {
                    assert(rest.len() > 1);
                    assert(self.arena.flink_of(rest[0]) == rest[1]);
                }
                self.flink = self.arena.flink(self.flink);
                self.remaining = Ghost(rest.drop_first());
                proof {
                    let left = self.remaining@;
                    assert forall|i: int| 0 <= i < left.len() implies left[i] == rest[i + 1] by {}
                    assert forall|i: int| 0 <= i < left.len()
                        implies self.arena.holds(#[trigger] left[i]) by {
                        assert(self.arena.holds(rest[i + 1]));
                    }
                    assert forall|i: int| 0 <= i < left.len() - 1
                        implies #[trigger] self.arena.flink_of(
                        left[i],
                    ) == left[i + 1] by {
                        assert(self.arena.flink_of(rest[i + 1]) == rest[i + 2]);
                    }
                    assert forall|i: int| 1 <= i < left.len()
                        implies #[trigger] self.arena.blink_of(
                        left[i],
                    ) == left[i - 1] by {
                        assert(self.arena.blink_of(rest[i + 1]) == rest[i]);
                    }
                }
            }
            Some(element)
        }
    }

    /// Yields the last of the remaining elements, or `None` if none is left.
    pub fn next_back(&mut self) -> (element: Option<&'a E>)
        requires
            old(self).wf(),
        ensures
            final(self).wf(),
            final(self).arena() == old(self).arena(),
            old(self)@.len() == 0 ==> element.is_none() && final(self)@ == old(self)@,
            old(self)@.len() > 0
                ==> element.is_some()
                && *element.unwrap() == old(self).arena().element_at(old(self)@.last())
                && final(self)@ == old(self)@.drop_last(),
            old(self)@.len() > 0
                ==> *element.unwrap() == old(self).elements().last()
                && final(self).elements() == old(self).elements().drop_last(),
    {
        proof {
            if self@.len() > 0 {
                assert(Seq::new(
                    self@.drop_last().len(),
                    |i: int| self.arena().element_at(self@.drop_last()[i]),
                ) =~= self.elements().drop_last());
            }
        }
        let ghost rest = self.remaining@;
        let ghost n = rest.len() as int;
        if self.blink == self.head {
            proof {
                if n > 0 {
                    assert(self.arena.holds(rest[n - 1]));
                }
            }
            None
        } else {
            proof {
                assert(self.arena.holds(rest[n - 1]));
            }
            let element = self.arena.get(self.blink);
            if self.blink == self.flink {
                // The cursors meet: this is the last element.
                proof {
                    if n > 1 {
                        assert(rest[0] == rest[n - 1]);
                    }
                    assert(rest.drop_last() =~= Seq::<usize>::empty());
                }
                self.terminate();
            } else {
                proof {
                    assert(n > 1);
                    assert(self.arena.blink_of(rest[n - 1]) == rest[n - 2]);
                }
                self.blink = self.arena.blink(self.blink);
                self.remaining = Ghost(rest.drop_last());
                proof {
                    let left = self.remaining@;
                    assert forall|i: int| 0 <= i < left.len() implies left[i] == rest[i] by {}
                    assert forall|i: int| 0 <= i < left.len()
                        implies self.arena.holds(#[trigger] left[i]) by {
                        assert(self.arena.holds(rest[i]));
                    }
                    assert forall|i: int| 0 <= i < left.len() - 1
                        implies #[trigger] self.arena.flink_of(
                        left[i],
                    ) == left[i + 1] by {
                        assert(self.arena.flink_of(rest[i]) == rest[i + 1]);
                    }
                    assert forall|i: int| 1 <= i < left.len()
                        implies #[trigger] self.arena.blink_of(
                        left[i],
                    ) == left[i - 1] by {
                        assert(self.arena.blink_of(rest[i]) == rest[i - 1]);
                    }
                }
            }
            Some(element)
        }
    }

    /// Consumes the iterator and returns the last of the remaining elements.
    /// It is reached from the back, in one step.
    pub fn last(self) -> (element: Option<&'a E>)
        requires
            self.wf(),
        ensures
            self@.len() == 0 ==> element.is_none(),
            self@.len() > 0 ==> element.is_some() && *element.unwrap() == self.arena().element_at(
                self@.last(),
            ) && *element.unwrap() == self.elements().last(),
    {
        let mut iter = self;
        iter.next_back()
    }
}

/// Mutable iterator over the elements of a doubly linked list.
///
/// It works as [`Iter`] does and yields mutable references, which it lends
/// out of the arena borrow that it holds. The fields are public so that a
/// contract can speak of the arena as it is when that borrow ends; they are
/// not meant to be written.
pub struct IterMut<'a, E: NtListElement<L>, L: NtTypedList<T = NtList>> {
    /// The arena, borrowed for as long as the iterator lives.
    pub arena: &'a mut NtListArena<E, L>,
    /// The address of the end marker of the list.
    pub head: usize,
    /// The front cursor: the address of the entry that `next` yields.
    pub flink: usize,
    /// The back cursor: the address of the entry that `next_back` yields.
    pub blink: usize,
    /// The addresses that are left to yield.
    pub remaining: Ghost<Seq<usize>>,
}

impl<'a, E, L> View for IterMut<'a, E, L> where E: NtListElement<L>, L: NtTypedList<T = NtList> {
    type V = Seq<usize>;

    /// The addresses of the elements that are left to yield, in list order.
    closed spec fn view(&self) -> Seq<usize> {
        self.remaining@
    }
}

impl<'a, E, L> IterMut<'a, E, L> where E: NtListElement<L>, L: NtTypedList<T = NtList> {
    /// The elements that are left to yield, in list order.
    pub open spec fn elements(&self) -> Seq<E> {
        Seq::new(self@.len(), |i: int| self.arena.element_at(self@[i]))
    }

    /// The cursors stand at the two ends of what is left to yield, and the
    /// entries in between are linked in that order.
    pub closed spec fn wf(&self) -> bool {
        let rest = self.remaining@;
        &&& self.arena.wf()
        &&& rest.no_duplicates()
        &&& !self.arena.holds(self.head)
        &&& forall|i: int| 0 <= i < rest.len() ==> self.arena.holds(#[trigger] rest[i])
        &&& self.flink == if rest.len() > 0 {
            rest.first()
        } else {
            self.head
        }
        &&& self.blink == if rest.len() > 0 {
            rest.last()
        } else {
            self.head
        }
        &&& forall|i: int|
            0 <= i < rest.len() - 1 ==> #[trigger] self.arena.flink_of(rest[i]) == rest[i + 1]
        &&& forall|i: int|
            1 <= i < rest.len() ==> #[trigger] self.arena.blink_of(rest[i]) == rest[i - 1]
    }

    /// Moves both cursors to the end marker: nothing is left to yield.
    fn terminate(&mut self)
        requires
            old(self).arena.wf(),
            !old(self).arena.holds(old(self).head),
        ensures
            final(self).wf(),
            final(self)@ == Seq::<usize>::empty(),
            *final(self).arena == *old(self).arena,
            *final(final(self).arena) == *final(old(self).arena),
    {
        self.flink = self.head;
        self.blink = self.flink;
        self.remaining = Ghost(Seq::empty());
    }

    /// Moves the front cursor one entry forward.
    fn advance(&mut self)
        requires
            old(self).wf(),
            old(self)@.len() > 1,
        ensures
            final(self).wf(),
            final(self)@ == old(self)@.drop_first(),
            *final(self).arena == *old(self).arena,
            *final(final(self).arena) == *final(old(self).arena),
    {
        let ghost rest = self.remaining@;
        proof {
            assert(self.arena.holds(rest[0]));
            assert(self.arena.flink_of(rest[0]) == rest[1]);
        }
        self.flink = self.arena.flink(self.flink);
        self.remaining = Ghost(rest.drop_first());
        proof {
            let left = self.remaining@;
            assert forall|i: int| 0 <= i < left.len() implies left[i] == rest[i + 1] by {}
            assert forall|i: int| 0 <= i < left.len()
                implies self.arena.holds(#[trigger] left[i]) by {
                assert(self.arena.holds(rest[i + 1]));
            }
            assert forall|i: int| 0 <= i < left.len() - 1 implies #[trigger] self.arena.flink_of(
                left[i],
            ) == left[i + 1] by {
                assert(self.arena.flink_of(rest[i + 1]) == rest[i + 2]);
            }
            assert forall|i: int| 1 <= i < left.len() implies #[trigger] self.arena.blink_of(
                left[i],
            ) == left[i - 1] by {
                assert(self.arena.blink_of(rest[i + 1]) == rest[i]);
            }
        }
    }

    /// Moves the back cursor one entry backward.
    fn retreat(&mut self)
        requires
            old(self).wf(),
            old(self)@.len() > 1,
        ensures
            final(self).wf(),
            final(self)@ == old(self)@.drop_last(),
            *final(self).arena == *old(self).arena,
            *final(final(self).arena) == *final(old(self).arena),
    {
        let ghost rest = self.remaining@;
        let ghost n = rest.len() as int;
        proof {
            assert(self.arena.holds(rest[n - 1]));
            assert(self.arena.blink_of(rest[n - 1]) == rest[n - 2]);
        }
        self.blink = self.arena.blink(self.blink);
        self.remaining = Ghost(rest.drop_last());
        proof {
            let left = self.remaining@;
            assert forall|i: int| 0 <= i < left.len() implies left[i] == rest[i] by {}
            assert forall|i: int| 0 <= i < left.len()
                implies self.arena.holds(#[trigger] left[i]) by {
                assert(self.arena.holds(rest[i]));
            }
            assert forall|i: int| 0 <= i < left.len() - 1 implies #[trigger] self.arena.flink_of(
                left[i],
            ) == left[i + 1] by {
                assert(self.arena.flink_of(rest[i]) == rest[i + 1]);
            }
            assert forall|i: int| 1 <= i < left.len() implies #[trigger] self.arena.blink_of(
                left[i],
            ) == left[i - 1] by {
                assert(self.arena.blink_of(rest[i]) == rest[i - 1]);
            }
        }
    }

    /// Yields the first of the remaining elements, or `None` if none is
    /// left.
    pub fn next(&mut self) -> (element: Option<&mut E>)
        requires
            old(self).wf(),
        ensures
            final(self).wf(),
            final(self).arena.wf(),
            *final(final(self).arena) == *final(old(self).arena),
            final(self).arena.same_links(old(self).arena),
            final(self).arena.same_occupancy(old(self).arena),
            old(self)@.len() == 0
                ==> element.is_none() && final(self)@ == old(self)@
                && *final(self).arena == *old(self).arena,
            old(self)@.len() > 0
                ==> element.is_some()
                && *element.unwrap() == old(self).arena.element_at(old(self)@.first())
                && final(self)@ == old(self)@.drop_first()
                && final(self).arena.element_at(old(self)@.first()) == *final(element.unwrap())
                && final(self).arena.agrees_except(old(self).arena, old(self)@.first()),
    {
        let ghost rest = self.remaining@;
        if self.flink == self.head {
            proof {
                if rest.len() > 0 {
                    assert(self.arena.holds(rest[0]));
                }
            }
            None
        } else {
            proof {
                assert(self.arena.holds(rest[0]));
            }
            let current = self.flink;
            if self.flink == self.blink {
                // The cursors meet: this is the last element.
                proof {
                    if rest.len() > 1 {
                        assert(rest[0] == rest[rest.len() - 1]);
                    }
                    assert(rest.drop_first() =~= Seq::<usize>::empty());
                }
                self.terminate();
            } else {
                self.advance();
            }
            let element = self.arena.get_mut(current);
            Some(element)
        }
    }

    /// Yields the last of the remaining elements, or `None` if none is left.
    pub fn next_back(&mut self) -> (element: Option<&mut E>)
        requires
            old(self).wf(),
        ensures
            final(self).wf(),
            final(self).arena.wf(),
            *final(final(self).arena) == *final(old(self).arena),
            final(self).arena.same_links(old(self).arena),
            final(self).arena.same_occupancy(old(self).arena),
            old(self)@.len() == 0
                ==> element.is_none() && final(self)@ == old(self)@
                && *final(self).arena == *old(self).arena,
            old(self)@.len() > 0
                ==> element.is_some()
                && *element.unwrap() == old(self).arena.element_at(old(self)@.last())
                && final(self)@ == old(self)@.drop_last()
                && final(self).arena.element_at(old(self)@.last()) == *final(element.unwrap())
                && final(self).arena.agrees_except(old(self).arena, old(self)@.last()),
    {
        let ghost rest = self.remaining@;
        let ghost n = rest.len() as int;
        if self.blink == self.head {
            proof {
                if n > 0 {
                    assert(self.arena.holds(rest[n - 1]));
                }
            }
            None
        } else {
            proof {
                assert(self.arena.holds(rest[n - 1]));
            }
            let current = self.blink;
            if self.blink == self.flink {
                // The cursors meet: this is the last element.
                proof {
                    if n > 1 {
                        assert(rest[0] == rest[n - 1]);
                    }
                    assert(rest.drop_last() =~= Seq::<usize>::empty());
                }
                self.terminate();
            } else {
                self.retreat();
            }
            let element = self.arena.get_mut(current);
            Some(element)
        }
    }

    /// Consumes the iterator and returns the last of the remaining elements.
    /// It is reached from the back, in one step.
    pub fn last(self) -> (element: Option<&'a mut E>)
        requires
            self.wf(),
        ensures
            final(self.arena).wf(),
            final(self.arena).same_links(old(self.arena)),
            final(self.arena).same_occupancy(old(self.arena)),
            self@.len() == 0 ==> element.is_none() && *final(self.arena) == *old(self.arena),
            self@.len() > 0
                ==> element.is_some() && *element.unwrap() == old(self.arena).element_at(
                self@.last(),
            )
                && final(self.arena).element_at(self@.last()) == *final(element.unwrap())
                && final(self.arena).agrees_except(old(self.arena), self@.last()),
    {
        let ghost rest = self.remaining@;
        proof {
            if rest.len() > 0 {
                assert(self.arena.holds(rest[rest.len() - 1]));
            }
        }
        if self.blink == self.head {
            None
        } else {
            Some(self.arena.get_mut(self.blink))
        }
    }
}

} // verus!
