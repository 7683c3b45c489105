use nt_list::address::NULL_ADDRESS;
use nt_list::single_list::{
    NtSingleList, NtSingleListArena, NtSingleListEntry, NtSingleListHead,
};
use nt_list::{NtListElement, NtTypedList};

enum Stack {}

impl NtTypedList for Stack {
    type T = NtSingleList;
}

struct Frame {
    depth: u32,
}

impl NtListElement<Stack> for Frame {}

type Arena = NtSingleListArena<Frame, Stack>;
type Head = NtSingleListHead<Frame, Stack>;

fn arena_with(depths: &[u32]) -> (Arena, Vec<usize>) {
    let mut arena = Arena::new();
    let mut addresses = Vec::new();
    for depth in depths {
        addresses.push(arena.allocate(Box::new(Frame { depth: *depth })));
    }
    (arena, addresses)
}

fn depths(head: &Head, arena: &Arena) -> Vec<u32> {
    let mut iter = head.iter(arena);
    let mut depths = Vec::new();
    while let Some(frame) = iter.next() {
        depths.push(frame.depth);
    }
    depths
}

fn chain(head: &Head, arena: &Arena) -> Vec<usize> {
    let mut addresses = Vec::new();
    let mut current = head.first();
    while current != NULL_ADDRESS {
        addresses.push(current);
        current = arena.next(current);
    }
    addresses
}

#[test]
fn new_single_entry_is_not_linked() {
    assert_eq!(NtSingleListEntry::<Frame, Stack>::new().next, NULL_ADDRESS);
    assert_eq!(NtSingleListEntry::<Frame, Stack>::default().next, NULL_ADDRESS);
}

#[test]
fn new_single_head_is_empty() {
    let arena = Arena::new();
    let head = Head::new();
    assert!(head.is_empty());
    assert_eq!(head.first(), NULL_ADDRESS);
    assert_eq!(head.len(&arena), 0);
    assert!(head.front(&arena).is_none());
    assert!(head.iter(&arena).next().is_none());
    assert!(Head::default().is_empty());
}

#[test]
fn single_push_front_reverses_push_order() {
    let (mut arena, addresses) = arena_with(&[0, 1, 2, 3]);
    let mut head = Head::new();
    for address in &addresses {
        head.push_front(&mut arena, *address);
    }
    assert!(!head.is_empty());
    assert_eq!(head.len(&arena), 4);
    assert_eq!(depths(&head, &arena), vec![3, 2, 1, 0]);
    assert_eq!(head.first(), addresses[3]);
    assert_eq!(arena.next(addresses[3]), addresses[2]);
    assert_eq!(arena.next(addresses[0]), NULL_ADDRESS);
    assert_eq!(head.front(&arena).unwrap().depth, 3);
}

#[test]
fn single_pop_front_returns_what_front_showed() {
    let (mut arena, addresses) = arena_with(&[0, 1, 2]);
    let mut head = Head::new();
    for address in &addresses {
        head.push_front(&mut arena, *address);
    }
    let seen = head.front(&arena).unwrap().depth;
    let popped = head.pop_front(&arena).unwrap();
    assert_eq!(popped, addresses[2]);
    assert_eq!(arena.get(popped).depth, seen);
    assert_eq!(head.len(&arena), 2);
    assert!(arena.contains(popped));
    assert_eq!(head.pop_front(&arena), Some(addresses[1]));
    assert_eq!(head.pop_front(&arena), Some(addresses[0]));
    assert_eq!(head.pop_front(&arena), None);
    assert!(head.is_empty());
}

#[test]
fn single_push_then_pop_restores_the_list() {
    let (mut arena, addresses) = arena_with(&[0, 1]);
    let mut head = Head::new();
    head.push_front(&mut arena, addresses[0]);
    let before = chain(&head, &arena);
    head.push_front(&mut arena, addresses[1]);
    assert_eq!(head.pop_front(&arena), Some(addresses[1]));
    assert_eq!(chain(&head, &arena), before);
    assert_eq!(head.len(&arena), 1);
}

#[test]
fn single_clear_resets_the_header_only() {
    let (mut arena, addresses) = arena_with(&[0, 1]);
    let mut head = Head::new();
    for address in &addresses {
        head.push_front(&mut arena, *address);
    }
    head.clear();
    assert!(head.is_empty());
    assert_eq!(head.first(), NULL_ADDRESS);
    assert_eq!(head.len(&arena), 0);
    assert!(arena.contains(addresses[0]));
    assert!(arena.contains(addresses[1]));
    assert_eq!(arena.next(addresses[1]), addresses[0]);
    head.clear();
    assert!(head.is_empty());
    assert_eq!(head.first(), NULL_ADDRESS);
}

#[test]
fn single_retain_relinks_around_what_leaves() {
    let (mut arena, addresses) = arena_with(&[0, 1, 2, 3, 4, 5]);
    let mut head = Head::new();
    for address in addresses.iter().rev() {
        head.push_front(&mut arena, *address);
    }
    assert_eq!(depths(&head, &arena), vec![0, 1, 2, 3, 4, 5]);

    // The first two leave, so the header itself is relinked twice.
    head.retain(&mut arena, |frame| frame.depth >= 2 && frame.depth != 4);
    assert_eq!(depths(&head, &arena), vec![2, 3, 5]);
    assert_eq!(head.first(), addresses[2]);
    assert_eq!(arena.next(addresses[3]), addresses[5]);
    assert_eq!(arena.next(addresses[5]), NULL_ADDRESS);
    for address in &addresses {
        assert!(arena.contains(*address));
    }

    // The last one leaves.
    head.retain(&mut arena, |frame| frame.depth != 5);
    assert_eq!(depths(&head, &arena), vec![2, 3]);
    assert_eq!(arena.next(addresses[3]), NULL_ADDRESS);

    head.retain(&mut arena, |_| true);
    assert_eq!(depths(&head, &arena), vec![2, 3]);
    head.retain(&mut arena, |_| false);
    assert!(head.is_empty());
    head.retain(&mut arena, |_| false);
    assert!(head.is_empty());
}

#[test]
fn single_mutable_access_writes_elements_and_keeps_links() {
    let (mut arena, addresses) = arena_with(&[0, 1, 2]);
    let mut head = Head::new();
    for address in &addresses {
        head.push_front(&mut arena, *address);
    }
    let before = chain(&head, &arena);
    head.front_mut(&mut arena).unwrap().depth = 20;
    assert_eq!(depths(&head, &arena), vec![20, 1, 0]);
    let mut iter = head.iter_mut(&mut arena);
    while let Some(frame) = iter.next() {
        frame.depth += 1;
    }
    assert_eq!(depths(&head, &arena), vec![21, 2, 1]);
    assert_eq!(chain(&head, &arena), before);

    let empty = Head::new();
    assert!(empty.front_mut(&mut arena).is_none());
    assert!(empty.iter_mut(&mut arena).next().is_none());
}

#[test]
fn single_freed_slot_is_handed_out_again() {
    let (mut arena, addresses) = arena_with(&[1, 2]);
    assert_eq!(arena.deallocate(addresses[0]).depth, 1);
    assert!(!arena.contains(addresses[0]));
    assert_eq!(arena.allocate(Box::new(Frame { depth: 3 })), addresses[0]);
    assert_eq!(arena.slots(), 2);
    assert_eq!(arena.next(addresses[0]), NULL_ADDRESS);
    arena.get_mut(addresses[0]).depth = 4;
    assert_eq!(arena.get(addresses[0]).depth, 4);
}
