use nt_list::address::NULL_ADDRESS;
use nt_list::list::{NtList, NtListArena, NtListEntry, NtListHead};
use nt_list::{NtListElement, NtTypedList};

enum Queue {}

impl NtTypedList for Queue {
    type T = NtList;
}

#[derive(Debug, PartialEq)]
struct Job {
    id: u32,
}

impl NtListElement<Queue> for Job {}

type Arena = NtListArena<Job, Queue>;
type Head = NtListHead<Job, Queue>;

fn arena_with(ids: &[u32]) -> (Arena, Vec<usize>) {
    let mut arena = Arena::new();
    let mut addresses = Vec::new();
    for id in ids {
        addresses.push(arena.allocate(Box::new(Job { id: *id })));
    }
    (arena, addresses)
}

fn ids(head: &Head, arena: &Arena) -> Vec<u32> {
    let mut iter = head.iter(arena);
    let mut ids = Vec::new();
    while let Some(job) = iter.next() {
        ids.push(job.id);
    }
    ids
}

fn forward_addresses(head: &Head, arena: &Arena) -> Vec<usize> {
    let mut addresses = Vec::new();
    let mut current = arena.flink(head.end_marker());
    while current != head.end_marker() {
        addresses.push(current);
        current = arena.flink(current);
    }
    addresses
}

fn assert_links_consistent(head: &Head, arena: &Arena) {
    let mut ring = vec![head.end_marker()];
    ring.extend(forward_addresses(head, arena));
    for entry in ring {
        assert_eq!(arena.blink(arena.flink(entry)), entry);
        assert_eq!(arena.flink(arena.blink(entry)), entry);
    }
}

#[test]
fn new_entry_is_not_linked() {
    let entry = NtListEntry::<Job, Queue>::new();
    assert_eq!(entry.flink, NULL_ADDRESS);
    assert_eq!(entry.blink, NULL_ADDRESS);
    let entry = NtListEntry::<Job, Queue>::default();
    assert_eq!(entry.flink, NULL_ADDRESS);
    assert_eq!(entry.blink, NULL_ADDRESS);
}

#[test]
fn new_head_points_at_itself() {
    let mut arena = Arena::new();
    let head = Head::new(&mut arena);
    let end = head.end_marker();
    assert_eq!(end, 0);
    assert_eq!(arena.slots(), 1);
    assert!(!arena.contains(end));
    assert_eq!(arena.flink(end), end);
    assert_eq!(arena.blink(end), end);
    assert!(head.is_empty(&arena));
    assert_eq!(head.len(&arena), 0);
    assert!(head.front(&arena).is_none());
    assert!(head.back(&arena).is_none());
}

#[test]
fn allocation_leaves_entry_unlinked() {
    let (arena, addresses) = arena_with(&[7]);
    assert_eq!(addresses, vec![0]);
    assert!(arena.contains(0));
    assert!(!arena.contains(1));
    assert_eq!(arena.flink(0), NULL_ADDRESS);
    assert_eq!(arena.blink(0), NULL_ADDRESS);
    assert_eq!(arena.get(0).id, 7);
}

#[test]
fn freed_slot_is_handed_out_again() {
    let (mut arena, addresses) = arena_with(&[1, 2, 3]);
    let job = arena.deallocate(addresses[1]);
    assert_eq!(job.id, 2);
    assert!(!arena.contains(addresses[1]));
    let again = arena.allocate(Box::new(Job { id: 4 }));
    assert_eq!(again, addresses[1]);
    assert_eq!(arena.slots(), 3);
    assert_eq!(arena.get(again).id, 4);
    assert_eq!(arena.flink(again), NULL_ADDRESS);
    let fresh = arena.allocate(Box::new(Job { id: 5 }));
    assert_eq!(fresh, 3);
    assert_eq!(arena.slots(), 4);
}

#[test]
fn get_mut_writes_in_place() {
    let (mut arena, addresses) = arena_with(&[1, 2]);
    arena.get_mut(addresses[0]).id = 10;
    assert_eq!(arena.get(addresses[0]).id, 10);
    assert_eq!(arena.get(addresses[1]).id, 2);
}

#[test]
fn push_back_keeps_push_order() {
    let (mut arena, addresses) = arena_with(&[0, 1, 2, 3, 4]);
    let mut head = Head::new(&mut arena);
    for address in &addresses {
        head.push_back(&mut arena, *address);
    }
    assert_eq!(head.len(&arena), 5);
    assert_eq!(ids(&head, &arena), vec![0, 1, 2, 3, 4]);
    assert_eq!(forward_addresses(&head, &arena), addresses);
    assert_links_consistent(&head, &arena);
}

#[test]
fn push_front_reverses_push_order() {
    let (mut arena, addresses) = arena_with(&[0, 1, 2, 3, 4]);
    let mut head = Head::new(&mut arena);
    for address in &addresses {
        head.push_front(&mut arena, *address);
    }
    assert_eq!(head.len(&arena), 5);
    assert_eq!(ids(&head, &arena), vec![4, 3, 2, 1, 0]);
    assert_links_consistent(&head, &arena);
}

#[test]
fn pop_returns_what_front_and_back_showed() {
    let (mut arena, addresses) = arena_with(&[10, 20, 30]);
    let mut head = Head::new(&mut arena);
    for address in &addresses {
        head.push_back(&mut arena, *address);
    }

    let seen = head.front(&arena).unwrap().id;
    let popped = head.pop_front(&mut arena).unwrap();
    assert_eq!(popped, addresses[0]);
    assert_eq!(arena.get(popped).id, seen);
    assert_eq!(head.len(&arena), 2);

    let seen = head.back(&arena).unwrap().id;
    let popped = head.pop_back(&mut arena).unwrap();
    assert_eq!(popped, addresses[2]);
    assert_eq!(arena.get(popped).id, seen);
    assert_eq!(head.len(&arena), 1);

    // The popped elements are still in the arena.
    assert!(arena.contains(addresses[0]));
    assert!(arena.contains(addresses[2]));
    assert_links_consistent(&head, &arena);
}

#[test]
fn pop_from_empty_list_yields_nothing() {
    let mut arena = Arena::new();
    let mut head = Head::new(&mut arena);
    assert!(head.pop_front(&mut arena).is_none());
    assert!(head.pop_back(&mut arena).is_none());
    assert!(head.is_empty(&arena));
    assert_eq!(arena.flink(head.end_marker()), head.end_marker());
    assert_eq!(arena.blink(head.end_marker()), head.end_marker());
}

#[test]
fn push_back_then_pop_back_restores_the_list() {
    let (mut arena, addresses) = arena_with(&[1, 2, 3]);
    let mut head = Head::new(&mut arena);
    assert!(head.is_empty(&arena));
    head.push_back(&mut arena, addresses[0]);
    assert_eq!(head.pop_back(&mut arena), Some(addresses[0]));
    assert!(head.is_empty(&arena));
    assert_eq!(head.len(&arena), 0);

    head.push_back(&mut arena, addresses[0]);
    head.push_back(&mut arena, addresses[1]);
    let before = forward_addresses(&head, &arena);
    head.push_back(&mut arena, addresses[2]);
    assert_eq!(head.pop_back(&mut arena), Some(addresses[2]));
    assert_eq!(forward_addresses(&head, &arena), before);
    assert_eq!(head.len(&arena), 2);
    assert!(!head.is_empty(&arena));

    head.push_front(&mut arena, addresses[2]);
    assert_eq!(head.pop_front(&mut arena), Some(addresses[2]));
    assert_eq!(forward_addresses(&head, &arena), before);
}

#[test]
fn clear_resets_the_header_only() {
    let (mut arena, addresses) = arena_with(&[1, 2, 3]);
    let mut head = Head::new(&mut arena);
    for address in &addresses {
        head.push_back(&mut arena, *address);
    }
    let end = head.end_marker();

    head.clear(&mut arena);
    assert!(head.is_empty(&arena));
    assert_eq!(head.len(&arena), 0);
    assert_eq!(arena.flink(end), end);
    assert_eq!(arena.blink(end), end);
    // The elements are untouched: still in the arena, with the links they had.
    for address in &addresses {
        assert!(arena.contains(*address));
    }
    assert_eq!(arena.flink(addresses[0]), addresses[1]);
    assert_eq!(arena.blink(addresses[0]), end);
    assert_eq!(arena.flink(addresses[2]), end);

    // A second call changes nothing.
    let links: Vec<(usize, usize)> =
        (0..arena.slots()).map(|a| (arena.flink(a), arena.blink(a))).collect();
    head.clear(&mut arena);
    let again: Vec<(usize, usize)> =
        (0..arena.slots()).map(|a| (arena.flink(a), arena.blink(a))).collect();
    assert_eq!(links, again);
    assert!(head.is_empty(&arena));
}

#[test]
fn append_relinks_the_ends_of_two_lists_in_one_arena() {
    let (mut arena, addresses) = arena_with(&[0, 1, 2, 10, 11]);
    let mut first = Head::new(&mut arena);
    let mut second = Head::new(&mut arena);
    for address in &addresses[..3] {
        first.push_back(&mut arena, *address);
    }
    for address in &addresses[3..] {
        second.push_back(&mut arena, *address);
    }
    let inner_links = (arena.flink(addresses[1]), arena.blink(addresses[1]));

    first.append(&mut arena, &mut second);

    assert_eq!(first.len(&arena), 5);
    assert_eq!(second.len(&arena), 0);
    assert!(second.is_empty(&arena));
    assert_eq!(ids(&first, &arena), vec![0, 1, 2, 10, 11]);
    assert_eq!(forward_addresses(&first, &arena), addresses);
    assert_eq!((arena.flink(addresses[1]), arena.blink(addresses[1])), inner_links);
    assert_eq!(arena.flink(second.end_marker()), second.end_marker());
    assert_eq!(arena.blink(second.end_marker()), second.end_marker());
    assert_links_consistent(&first, &arena);
    assert_links_consistent(&second, &arena);

    // Both lists can be used afterwards.
    let moved = first.pop_front(&mut arena).unwrap();
    second.push_back(&mut arena, moved);
    assert_eq!(ids(&second, &arena), vec![0]);
    assert_eq!(ids(&first, &arena), vec![1, 2, 10, 11]);
}

#[test]
fn append_of_an_empty_list_changes_nothing() {
    let (mut arena, addresses) = arena_with(&[0, 1]);
    let mut first = Head::new(&mut arena);
    let mut second = Head::new(&mut arena);
    for address in &addresses {
        first.push_back(&mut arena, *address);
    }
    let links: Vec<(usize, usize)> =
        (0..arena.slots()).map(|a| (arena.flink(a), arena.blink(a))).collect();

    first.append(&mut arena, &mut second);

    let again: Vec<(usize, usize)> =
        (0..arena.slots()).map(|a| (arena.flink(a), arena.blink(a))).collect();
    assert_eq!(links, again);
    assert_eq!(ids(&first, &arena), vec![0, 1]);
    assert!(second.is_empty(&arena));
}

#[test]
fn append_to_an_empty_list() {
    let (mut arena, addresses) = arena_with(&[0, 1]);
    let mut first = Head::new(&mut arena);
    let mut second = Head::new(&mut arena);
    for address in &addresses {
        second.push_back(&mut arena, *address);
    }
    first.append(&mut arena, &mut second);
    assert_eq!(ids(&first, &arena), vec![0, 1]);
    assert!(second.is_empty(&arena));
    assert_links_consistent(&first, &arena);
}

#[test]
fn retain_unlinks_without_freeing() {
    let (mut arena, addresses) = arena_with(&[0, 1, 2, 3, 4, 5, 6, 7, 8, 9]);
    let mut head = Head::new(&mut arena);
    for address in &addresses {
        head.push_back(&mut arena, *address);
    }

    head.retain(&mut arena, |job| job.id % 3 != 0);

    assert_eq!(ids(&head, &arena), vec![1, 2, 4, 5, 7, 8]);
    assert_eq!(head.len(&arena), 6);
    for address in &addresses {
        assert!(arena.contains(*address));
    }
    assert_links_consistent(&head, &arena);

    head.retain(&mut arena, |_| true);
    assert_eq!(ids(&head, &arena), vec![1, 2, 4, 5, 7, 8]);

    head.retain(&mut arena, |_| false);
    assert!(head.is_empty(&arena));
    assert_eq!(arena.flink(head.end_marker()), head.end_marker());
    assert_eq!(arena.blink(head.end_marker()), head.end_marker());
}

#[test]
fn retain_on_empty_list() {
    let mut arena = Arena::new();
    let mut head = Head::new(&mut arena);
    head.retain(&mut arena, |_| false);
    assert!(head.is_empty(&arena));
}

#[test]
fn iterator_driven_from_both_ends_yields_each_element_once() {
    let (mut arena, addresses) = arena_with(&[0, 1, 2, 3, 4]);
    let mut head = Head::new(&mut arena);
    for address in &addresses {
        head.push_back(&mut arena, *address);
    }

    let mut iter = head.iter(&arena);
    assert_eq!(iter.next().unwrap().id, 0);
    assert_eq!(iter.next_back().unwrap().id, 4);
    assert_eq!(iter.next().unwrap().id, 1);
    assert_eq!(iter.next_back().unwrap().id, 3);
    // The cursors meet on the last element.
    assert_eq!(iter.next().unwrap().id, 2);
    assert!(iter.next().is_none());
    assert!(iter.next_back().is_none());
    assert!(iter.next().is_none());

    let mut iter = head.iter(&arena);
    assert_eq!(iter.next_back().unwrap().id, 4);
    assert_eq!(iter.next_back().unwrap().id, 3);
    assert_eq!(iter.next().unwrap().id, 0);
    assert_eq!(iter.next().unwrap().id, 1);
    assert_eq!(iter.next_back().unwrap().id, 2);
    assert!(iter.next_back().is_none());
    assert!(iter.next().is_none());
}

#[test]
fn iterator_over_one_element() {
    let (mut arena, addresses) = arena_with(&[5]);
    let mut head = Head::new(&mut arena);
    head.push_back(&mut arena, addresses[0]);
    let mut iter = head.iter(&arena);
    assert_eq!(iter.next_back().unwrap().id, 5);
    assert!(iter.next().is_none());
    let mut iter = head.iter(&arena);
    assert_eq!(iter.next().unwrap().id, 5);
    assert!(iter.next_back().is_none());
}

#[test]
fn iterator_over_empty_list() {
    let mut arena = Arena::new();
    let head = Head::new(&mut arena);
    let mut iter = head.iter(&arena);
    assert!(iter.next().is_none());
    assert!(iter.next_back().is_none());
    assert!(head.iter(&arena).last().is_none());
}

#[test]
fn last_is_the_back() {
    let (mut arena, addresses) = arena_with(&[1, 2, 3]);
    let mut head = Head::new(&mut arena);
    for address in &addresses {
        head.push_back(&mut arena, *address);
    }
    assert_eq!(head.iter(&arena).last().unwrap().id, 3);
    let mut iter = head.iter(&arena);
    iter.next_back();
    assert_eq!(iter.last().unwrap().id, 2);
    head.iter_mut(&mut arena).last().unwrap().id = 30;
    assert_eq!(ids(&head, &arena), vec![1, 2, 30]);
}

#[test]
fn mutable_access_writes_elements_and_keeps_links() {
    let (mut arena, addresses) = arena_with(&[1, 2, 3, 4]);
    let mut head = Head::new(&mut arena);
    for address in &addresses {
        head.push_back(&mut arena, *address);
    }
    let before = forward_addresses(&head, &arena);

    head.front_mut(&mut arena).unwrap().id = 10;
    head.back_mut(&mut arena).unwrap().id = 40;
    assert_eq!(ids(&head, &arena), vec![10, 2, 3, 40]);

    let mut iter = head.iter_mut(&mut arena);
    while let Some(job) = iter.next() {
        job.id += 1;
    }
    assert_eq!(ids(&head, &arena), vec![11, 3, 4, 41]);

    let mut iter = head.iter_mut(&mut arena);
    iter.next_back().unwrap().id = 0;
    iter.next().unwrap().id = 1;
    iter.next_back().unwrap().id = 2;
    iter.next().unwrap().id = 3;
    assert!(iter.next().is_none());
    assert!(iter.next_back().is_none());
    assert_eq!(ids(&head, &arena), vec![1, 3, 2, 0]);

    assert_eq!(forward_addresses(&head, &arena), before);
    assert_links_consistent(&head, &arena);
}

#[test]
fn mutable_access_to_empty_list() {
    let mut arena = Arena::new();
    let head = Head::new(&mut arena);
    assert!(head.front_mut(&mut arena).is_none());
    assert!(head.back_mut(&mut arena).is_none());
    assert!(head.iter_mut(&mut arena).next().is_none());
    assert!(head.iter_mut(&mut arena).next_back().is_none());
    assert!(head.iter_mut(&mut arena).last().is_none());
}

#[test]
fn walking_forward_returns_to_the_header_after_all_elements() {
    let (mut arena, addresses) = arena_with(&[1, 2, 3]);
    let mut head = Head::new(&mut arena);
    for address in &addresses {
        head.push_back(&mut arena, *address);
    }
    let end = head.end_marker();
    let mut current = arena.flink(end);
    for _ in 0..head.len(&arena) {
        assert_ne!(current, end);
        current = arena.flink(current);
    }
    assert_eq!(current, end);

    let mut current = arena.blink(end);
    for address in addresses.iter().rev() {
        assert_eq!(current, *address);
        current = arena.blink(current);
    }
    assert_eq!(current, end);
}

#[test]
fn links_stay_consistent_through_mixed_operations() {
    let (mut arena, addresses) = arena_with(&[0, 1, 2, 3, 4, 5]);
    let mut head = Head::new(&mut arena);
    head.push_back(&mut arena, addresses[0]);
    assert_links_consistent(&head, &arena);
    head.push_front(&mut arena, addresses[1]);
    assert_links_consistent(&head, &arena);
    head.push_back(&mut arena, addresses[2]);
    head.push_back(&mut arena, addresses[3]);
    assert_links_consistent(&head, &arena);
    assert_eq!(ids(&head, &arena), vec![1, 0, 2, 3]);
    head.retain(&mut arena, |job| job.id != 0);
    assert_links_consistent(&head, &arena);
    head.pop_front(&mut arena);
    assert_links_consistent(&head, &arena);
    head.push_front(&mut arena, addresses[0]);
    head.push_front(&mut arena, addresses[4]);
    assert_eq!(ids(&head, &arena), vec![4, 0, 2, 3]);
    head.pop_back(&mut arena);
    assert_links_consistent(&head, &arena);
    assert_eq!(ids(&head, &arena), vec![4, 0, 2]);
}

#[test]
fn an_element_moves_between_lists() {
    let (mut arena, addresses) = arena_with(&[1, 2]);
    let mut ready = Head::new(&mut arena);
    let mut done = Head::new(&mut arena);
    ready.push_back(&mut arena, addresses[0]);
    ready.push_back(&mut arena, addresses[1]);
    while let Some(job) = ready.pop_front(&mut arena) {
        done.push_front(&mut arena, job);
    }
    assert!(ready.is_empty(&arena));
    assert_eq!(ids(&done, &arena), vec![2, 1]);
    assert_links_consistent(&ready, &arena);
    assert_links_consistent(&done, &arena);
}
