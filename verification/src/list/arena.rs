//! The storage that the elements of a doubly linked list live in.
use vstd::prelude::*;
use crate::address::NULL_ADDRESS;
use crate::list::base::NtListEntry;
use crate::list::traits::NtList;
use crate::traits::{NtListElement, NtTypedList};

verus! {

/// One slot of an arena: a list entry and, while the slot is occupied, the
/// boxed element that the entry belongs to.
struct Slot<E: NtListElement<L>, L: NtTypedList<T = NtList>> {
    entry: NtListEntry<E, L>,
    element: Option<Box<E>>,
}

/// The storage for the elements of the doubly linked lists tagged `L`.
///
/// A slot is named by its address, which stays the same for as long as the
/// arena lives. An occupied slot holds one boxed element together with its
/// list entry. The header of a list takes a slot too, which holds an entry
/// and no element. A slot whose element was freed is handed out again by a
/// later allocation.
pub struct NtListArena<E: NtListElement<L>, L: NtTypedList<T = NtList>> {
    slots: Vec<Slot<E, L>>,
    free: Vec<usize>,
}

impl<E, L> NtListArena<E, L> where E: NtListElement<L>, L: NtTypedList<T = NtList> {
    /// The number of slots; the addresses below it are the valid ones.
    pub closed spec fn slot_count(&self) -> nat {
        self.slots@.len()
    }

    /// The forward link of the entry in slot `address`.
    pub closed spec fn flink_of(&self, address: usize) -> usize {
        self.slots@[address as int].entry.flink
    }

    /// The backward link of the entry in slot `address`.
    pub closed spec fn blink_of(&self, address: usize) -> usize {
        self.slots@[address as int].entry.blink
    }

    /// Whether the slot at `address`, if there is one, is occupied.
    pub closed spec fn occupied(&self, address: usize) -> bool {
        self.slots@[address as int].element.is_some()
    }

    /// Whether slot `address` exists and holds an element.
    pub open spec fn holds(&self, address: usize) -> bool {
        address < self.slot_count() && self.occupied(address)
    }

    /// The element in slot `address`.
    pub closed spec fn element_at(&self, address: usize) -> E
        recommends
            self.holds(address),
    {
        *self.slots@[address as int].element.unwrap()
    }

    /// Whether slot `address` waits to be handed out again.
    pub closed spec fn is_free(&self, address: usize) -> bool {
        self.free@.contains(address)
    }

    /// The arena is consistent: the slots that wait to be handed out again
    /// exist, hold no element, and are listed once each.
    pub closed spec fn wf(&self) -> bool {
        &&& self.free@.no_duplicates()
        &&& forall|i: int|
            0 <= i < self.free@.len() ==> (#[trigger] self.free@[i]) < self.slots@.len()
                && self.slots@[self.free@[i] as int].element.is_none()
    }

    /// Two arenas agree on slot `address`: on its links, on whether it holds
    /// an element and which, and on whether it is free.
    pub open spec fn same_slot(&self, other: &Self, address: usize) -> bool {
        &&& self.flink_of(address) == other.flink_of(address)
        &&& self.blink_of(address) == other.blink_of(address)
        &&& self.holds(address) == other.holds(address)
        &&& self.holds(address) ==> self.element_at(address) == other.element_at(address)
        &&& self.is_free(address) == other.is_free(address)
    }

    /// Two arenas agree on the links of every slot.
    pub open spec fn same_links(&self, other: &Self) -> bool {
        &&& self.slot_count() == other.slot_count()
        &&& forall|a: usize|
            a < self.slot_count() ==> #[trigger] self.flink_of(a) == other.flink_of(a)
        &&& forall|a: usize|
            a < self.slot_count() ==> #[trigger] self.blink_of(a) == other.blink_of(a)
    }

    /// Two arenas have the same slots and agree on which of them hold an
    /// element and which are free.
    pub open spec fn same_occupancy(&self, other: &Self) -> bool {
        &&& self.slot_count() == other.slot_count()
        &&& forall|a: usize| #[trigger] self.holds(a) == other.holds(a)
        &&& forall|a: usize| #[trigger] self.is_free(a) == other.is_free(a)
    }

    /// Two arenas agree on which slots hold an element and which are free,
    /// and hold the same element wherever they hold one.
    pub open spec fn same_elements(&self, other: &Self) -> bool {
        &&& self.same_occupancy(other)
        &&& forall|a: usize|
            self.holds(a) ==> #[trigger] self.element_at(a) == other.element_at(a)
    }

    /// Two arenas agree on every slot but `address`.
    pub open spec fn agrees_except(&self, other: &Self, address: usize) -> bool {
        &&& forall|a: usize|
            a != address && a < other.slot_count() ==> #[trigger] self.flink_of(a)
                == other.flink_of(a)
        &&& forall|a: usize|
            a != address && a < other.slot_count() ==> #[trigger] self.blink_of(a)
                == other.blink_of(a)
        &&& forall|a: usize| a != address ==> #[trigger] self.holds(a) == other.holds(a)
        &&& forall|a: usize| a != address ==> #[trigger] self.is_free(a) == other.is_free(a)
        &&& forall|a: usize|
            a != address && other.holds(a) ==> #[trigger] self.element_at(a) == other.element_at(a)
    }

    /// Two arenas have the same slots and agree on the links of every slot
    /// whose address is not in `touched`.
    pub open spec fn same_links_outside(&self, other: &Self, touched: Set<usize>) -> bool {
        &&& self.slot_count() == other.slot_count()
        &&& forall|a: usize|
            !touched.contains(a) && a < other.slot_count() ==> #[trigger] self.flink_of(a)
                == other.flink_of(a)
        &&& forall|a: usize|
            !touched.contains(a) && a < other.slot_count() ==> #[trigger] self.blink_of(a)
                == other.blink_of(a)
    }

    /// The number of slots is a machine number.
    pub proof fn lemma_slot_count_fits(&self)
        ensures
            self.slot_count() <= usize::MAX,
    {
        assert(self.slots.len() == self.slots@.len());
    }

    /// A free slot holds no element.
    pub proof fn lemma_free_slot_is_vacant(&self, address: usize)
        requires
            self.wf(),
            self.is_free(address),
        ensures
            address < self.slot_count(),
            !self.holds(address),
    {
        let i = choose|i: int| 0 <= i < self.free@.len() && self.free@[i] == address;
        assert(self.free@[i] == address);
    }

    /// Creates an arena without slots.
    pub fn new() -> (arena: Self)
        ensures
            arena.wf(),
            arena.slot_count() == 0,
    {
        NtListArena { slots: Vec::new(), free: Vec::new() }
    }

    /// Returns the number of slots.
    pub fn slots(&self) -> (count: usize)
        ensures
            count == self.slot_count(),
    {
        self.slots.len()
    }

    /// Returns whether slot `address` exists and holds an element.
    pub fn contains(&self, address: usize) -> (held: bool)
        ensures
            held == self.holds(address),
    {
        address < self.slots.len() && self.slots[address].element.is_some()
    }

    /// Returns the forward link of the entry in slot `address`.
    pub fn flink(&self, address: usize) -> (link: usize)
        requires
            address < self.slot_count(),
        ensures
            link == self.flink_of(address),
    {
        self.slots[address].entry.flink
    }

    /// Returns the backward link of the entry in slot `address`.
    pub fn blink(&self, address: usize) -> (link: usize)
        requires
            address < self.slot_count(),
        ensures
            link == self.blink_of(address),
    {
        self.slots[address].entry.blink
    }

    /// Provides a reference to the element in slot `address`.
    pub fn get(&self, address: usize) -> (element: &E)
        requires
            self.holds(address),
        ensures
            *element == self.element_at(address),
    {
        let boxed: &Box<E> = self.slots[address].element.as_ref().unwrap();
        &**boxed
    }

    /// Provides a mutable reference to the element in slot `address`. The
    /// links of the slot stay as they are.
    pub fn get_mut(&mut self, address: usize) -> (element: &mut E)
        requires
            old(self).wf(),
            old(self).holds(address),
        ensures
            *element == old(self).element_at(address),
            final(self).wf(),
            final(self).same_links(old(self)),
            final(self).same_occupancy(old(self)),
            final(self).agrees_except(old(self), address),
            final(self).element_at(address) == *final(element),
    {
        let boxed: &mut Box<E> = self.slots[address].element.as_mut().unwrap();
        &mut **boxed
    }

    /// Puts the boxed `element` into a slot, with an entry that is not
    /// linked, and returns the address of the slot. A free slot is taken if
    /// there is one, a new slot is added otherwise.
    pub fn allocate(&mut self, element: Box<E>) -> (address: usize)
        requires
            old(self).wf(),
        ensures
            final(self).wf(),
            address == old(self).slot_count() || old(self).is_free(address),
            address == old(self).slot_count() ==> forall|a: usize| !old(self).is_free(a),
            final(self).slot_count() == if address == old(self).slot_count() {
                old(self).slot_count() + 1
            } else {
                old(self).slot_count()
            },
            final(self).agrees_except(old(self), address),
            final(self).holds(address),
            final(self).element_at(address) == *element,
            final(self).flink_of(address) == NULL_ADDRESS,
            final(self).blink_of(address) == NULL_ADDRESS,
            !final(self).is_free(address),
    {
        if self.free.len() > 0 {
            let address = self.free.pop().unwrap();
            proof {
                assert(old(self).free@[old(self).free@.len() - 1] == address);
                assert forall|a: usize| a != address implies self.free@.contains(a) == old(
                    self,
                ).free@.contains(a) by {
                    if old(self).free@.contains(a) {
                        let i = choose|i: int| 0 <= i < old(self).free@.len()
                            && old(self).free@[i] == a;
                        assert(self.free@[i] == a);
                    }
                }
                assert(!self.free@.contains(address));
            }
            self.slots[address].entry = NtListEntry::new();
            self.slots[address].element = Some(element);
            address
        } else {
            let address = self.slots.len();
            self.slots.push(Slot { entry: NtListEntry::new(), element: Some(element) });
            address
        }
    }

    /// Takes the element out of slot `address` and returns its box. The slot
    /// keeps its links and is free from now on.
    pub fn deallocate(&mut self, address: usize) -> (element: Box<E>)
        requires
            old(self).wf(),
            old(self).holds(address),
        ensures
            final(self).wf(),
            *element == old(self).element_at(address),
            final(self).same_links(old(self)),
            final(self).agrees_except(old(self), address),
            !final(self).holds(address),
            final(self).is_free(address),
    {
        let element = self.slots[address].element.take().unwrap();
        proof {
            if old(self).free@.contains(address) {
                let i = choose|i: int| 0 <= i < old(self).free@.len()
                    && old(self).free@[i] == address;
                assert(old(self).free@[i] == address);
            }
        }
        self.free.push(address);
        proof {
            assert(self.free@[self.free@.len() - 1] == address);
            assert forall|a: usize| a != address implies self.free@.contains(a) == old(
                self,
            ).free@.contains(a) by {
                if old(self).free@.contains(a) {
                    let i = choose|i: int| 0 <= i < old(self).free@.len()
                        && old(self).free@[i] == a;
                    assert(self.free@[i] == a);
                }
            }
        }
        element
    }

    /// Adds a slot for the header of a list: it holds no element, and both
    /// links of its entry hold the address of the slot itself.
    pub(crate) fn allocate_header(&mut self) -> (address: usize)
        requires
            old(self).wf(),
        ensures
            final(self).wf(),
            address == old(self).slot_count(),
            final(self).slot_count() == old(self).slot_count() + 1,
            final(self).agrees_except(old(self), address),
            !final(self).holds(address),
            !final(self).is_free(address),
            final(self).flink_of(address) == address,
            final(self).blink_of(address) == address,
    {
        let address = self.slots.len();
        let mut entry = NtListEntry::new();
        entry.flink = address;
        entry.blink = address;
        proof {
            if self.free@.contains(address) {
                let i = choose|i: int| 0 <= i < self.free@.len() && self.free@[i] == address;
                assert(self.free@[i] == address);
            }
        }
        self.slots.push(Slot { entry, element: None });
        address
    }

    /// Writes the forward link of the entry in slot `address`.
    pub(crate) fn set_flink(&mut self, address: usize, link: usize)
        requires
            old(self).wf(),
            address < old(self).slot_count(),
        ensures
            final(self).wf(),
            final(self).slot_count() == old(self).slot_count(),
            final(self).same_elements(old(self)),
            final(self).agrees_except(old(self), address),
            final(self).flink_of(address) == link,
            final(self).blink_of(address) == old(self).blink_of(address),
    {
        self.slots[address].entry.flink = link;
    }

    /// Writes the backward link of the entry in slot `address`.
    pub(crate) fn set_blink(&mut self, address: usize, link: usize)
        requires
            old(self).wf(),
            address < old(self).slot_count(),
        ensures
            final(self).wf(),
            final(self).slot_count() == old(self).slot_count(),
            final(self).same_elements(old(self)),
            final(self).agrees_except(old(self), address),
            final(self).blink_of(address) == link,
            final(self).flink_of(address) == old(self).flink_of(address),
    {
        self.slots[address].entry.blink = link;
    }
}

} // verus!
