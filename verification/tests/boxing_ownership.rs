use std::cell::Cell;
use std::rc::Rc;

use nt_list::list::{NtBoxingListHead, NtList};
use nt_list::single_list::{NtBoxingSingleListHead, NtSingleList};
use nt_list::{NtBoxedListElement, NtListElement, NtTypedList};

enum Ring {}

impl NtTypedList for Ring {
    type T = NtList;
}

enum Chain {}

impl NtTypedList for Chain {
    type T = NtSingleList;
}

/// Counts its drops in a shared counter.
struct Counted {
    value: i32,
    drops: Rc<Cell<usize>>,
}

impl Drop for Counted {
    fn drop(&mut self) {
        self.drops.set(self.drops.get() + 1);
    }
}

impl NtListElement<Ring> for Counted {}

impl NtBoxedListElement for Counted {
    type L = Ring;
}

/// Counts its drops in a shared counter.
struct CountedLink {
    value: i32,
    drops: Rc<Cell<usize>>,
}

impl Drop for CountedLink {
    fn drop(&mut self) {
        self.drops.set(self.drops.get() + 1);
    }
}

impl NtListElement<Chain> for CountedLink {}

impl NtBoxedListElement for CountedLink {
    type L = Chain;
}

fn ring_of(values: &[i32], drops: &Rc<Cell<usize>>) -> NtBoxingListHead<Counted, Ring> {
    let mut list = NtBoxingListHead::new();
    for value in values {
        list.push_back(Counted { value: *value, drops: drops.clone() });
    }
    list
}

fn chain_of(values: &[i32], drops: &Rc<Cell<usize>>) -> NtBoxingSingleListHead<CountedLink, Chain> {
    let mut list = NtBoxingSingleListHead::new();
    for value in values.iter().rev() {
        list.push_front(CountedLink { value: *value, drops: drops.clone() });
    }
    list
}

fn ring_values(list: &NtBoxingListHead<Counted, Ring>) -> Vec<i32> {
    let mut iter = list.iter();
    let mut values = Vec::new();
    while let Some(element) = iter.next() {
        values.push(element.value);
    }
    values
}

fn chain_values(list: &NtBoxingSingleListHead<CountedLink, Chain>) -> Vec<i32> {
    let mut iter = list.iter();
    let mut values = Vec::new();
    while let Some(element) = iter.next() {
        values.push(element.value);
    }
    values
}

#[test]
fn popped_element_belongs_to_the_caller() {
    let drops = Rc::new(Cell::new(0));
    let mut list = ring_of(&[1, 2, 3], &drops);
    let back = list.pop_back().unwrap();
    let front = list.pop_front().unwrap();
    assert_eq!(back.value, 3);
    assert_eq!(front.value, 1);
    assert_eq!(drops.get(), 0);
    drop(back);
    assert_eq!(drops.get(), 1);
    drop(list);
    assert_eq!(drops.get(), 2);
    drop(front);
    assert_eq!(drops.get(), 3);
}

#[test]
fn clear_drops_every_element_once() {
    let drops = Rc::new(Cell::new(0));
    let mut list = ring_of(&[1, 2, 3, 4], &drops);
    list.clear();
    assert_eq!(drops.get(), 4);
    assert!(list.is_empty());
    assert_eq!(list.len(), 0);
    assert!(list.front().is_none());
    assert!(list.back().is_none());

    // A second call finds nothing to drop and leaves the list as it is.
    list.clear();
    assert_eq!(drops.get(), 4);
    assert!(list.is_empty());
    assert_eq!(list.len(), 0);

    list.push_back(Counted { value: 5, drops: drops.clone() });
    assert_eq!(ring_values(&list), vec![5]);
    drop(list);
    assert_eq!(drops.get(), 5);
}

#[test]
fn retain_drops_what_it_rejects() {
    let drops = Rc::new(Cell::new(0));
    let mut list = ring_of(&[0, 1, 2, 3, 4, 5, 6], &drops);
    list.retain(|element| element.value % 2 == 1);
    assert_eq!(drops.get(), 4);
    assert_eq!(ring_values(&list), vec![1, 3, 5]);
    // The arena holds the linked elements and no others.
    let arena = list.arena();
    let held = (0..arena.slots()).filter(|address| arena.contains(*address)).count();
    assert_eq!(held, 3);
    list.retain(|_| false);
    assert_eq!(drops.get(), 7);
    assert!(list.is_empty());
    drop(list);
    assert_eq!(drops.get(), 7);
}

#[test]
fn dropping_the_list_drops_what_is_left() {
    let drops = Rc::new(Cell::new(0));
    let list = ring_of(&[1, 2, 3], &drops);
    assert_eq!(drops.get(), 0);
    drop(list);
    assert_eq!(drops.get(), 3);
}

#[test]
fn append_hands_elements_over_without_dropping() {
    let drops = Rc::new(Cell::new(0));
    let mut first = ring_of(&[1, 2], &drops);
    let mut second = ring_of(&[3, 4, 5], &drops);
    first.append(&mut second);
    assert_eq!(drops.get(), 0);
    assert_eq!(ring_values(&first), vec![1, 2, 3, 4, 5]);
    assert_eq!(first.len(), 5);
    assert_eq!(second.len(), 0);
    drop(second);
    assert_eq!(drops.get(), 0);

    let mut empty = NtBoxingListHead::<Counted, Ring>::new();
    first.append(&mut empty);
    assert_eq!(ring_values(&first), vec![1, 2, 3, 4, 5]);
    assert!(empty.is_empty());
    drop(first);
    assert_eq!(drops.get(), 5);
}

#[test]
fn extend_links_boxes_behind_the_last_element() {
    let drops = Rc::new(Cell::new(0));
    let mut list = ring_of(&[1], &drops);
    let boxes = vec![
        Box::new(Counted { value: 2, drops: drops.clone() }),
        Box::new(Counted { value: 3, drops: drops.clone() }),
    ];
    list.extend_boxed(boxes);
    assert_eq!(ring_values(&list), vec![1, 2, 3]);
    assert_eq!(list.back().unwrap().value, 3);
    list.extend_boxed(Vec::new());
    list.extend(Vec::new());
    assert_eq!(ring_values(&list), vec![1, 2, 3]);
    list.extend(vec![Counted { value: 4, drops: drops.clone() }]);
    assert_eq!(ring_values(&list), vec![1, 2, 3, 4]);
    assert_eq!(list.pop_back().unwrap().value, 4);
    assert_eq!(list.len(), 3);
    assert_eq!(drops.get(), 1);

    let mut fresh = NtBoxingListHead::<Counted, Ring>::new();
    fresh.extend_boxed(vec![Box::new(Counted { value: 9, drops: drops.clone() })]);
    assert_eq!(fresh.front().unwrap().value, 9);
    assert_eq!(fresh.back().unwrap().value, 9);
    assert_eq!(fresh.len(), 1);
}

#[test]
fn pop_from_empty_boxing_list_yields_nothing() {
    let mut list = NtBoxingListHead::<Counted, Ring>::new();
    assert!(list.pop_back().is_none());
    assert!(list.pop_front().is_none());
    assert!(list.front_mut().is_none());
    assert!(list.back_mut().is_none());
    assert!(list.iter().next().is_none());
    assert!(list.iter_mut().next_back().is_none());
    assert!(list.is_empty());
}

#[test]
fn push_back_then_pop_back_restores_the_boxing_list() {
    let drops = Rc::new(Cell::new(0));
    let mut list = NtBoxingListHead::<Counted, Ring>::new();
    list.push_back(Counted { value: 7, drops: drops.clone() });
    assert_eq!(list.pop_back().unwrap().value, 7);
    assert!(list.is_empty());
    assert_eq!(list.len(), 0);

    let mut list = ring_of(&[1, 2], &drops);
    list.push_back(Counted { value: 7, drops: drops.clone() });
    assert_eq!(list.pop_back().unwrap().value, 7);
    assert!(!list.is_empty());
    assert_eq!(list.len(), 2);
    assert_eq!(ring_values(&list), vec![1, 2]);
    list.push_front(Counted { value: 8, drops: drops.clone() });
    assert_eq!(list.pop_front().unwrap().value, 8);
    assert_eq!(ring_values(&list), vec![1, 2]);
}

#[test]
fn boxing_list_mutable_access() {
    let drops = Rc::new(Cell::new(0));
    let mut list = ring_of(&[1, 2, 3], &drops);
    list.front_mut().unwrap().value = 10;
    list.back_mut().unwrap().value = 30;
    assert_eq!(ring_values(&list), vec![10, 2, 30]);
    {
        let mut iter = list.iter_mut();
        iter.next().unwrap().value += 1;
        iter.next_back().unwrap().value += 1;
        iter.next_back().unwrap().value += 1;
        assert!(iter.next().is_none());
    }
    assert_eq!(ring_values(&list), vec![11, 3, 31]);
    assert_eq!(list.len(), 3);
    assert_eq!(drops.get(), 0);
}

#[test]
fn boxing_list_backward_iteration() {
    let drops = Rc::new(Cell::new(0));
    let list = ring_of(&[1, 2, 3], &drops);
    let mut iter = list.iter();
    let mut backward = Vec::new();
    while let Some(element) = iter.next_back() {
        backward.push(element.value);
    }
    assert_eq!(backward, vec![3, 2, 1]);
    assert_eq!(list.iter().last().unwrap().value, 3);
}

#[test]
fn single_list_drops_every_element_once() {
    let drops = Rc::new(Cell::new(0));
    let mut list = chain_of(&[1, 2, 3, 4, 5], &drops);
    let front = list.pop_front().unwrap();
    assert_eq!(front.value, 1);
    assert_eq!(drops.get(), 0);
    drop(front);
    assert_eq!(drops.get(), 1);

    list.retain(|element| element.value != 3);
    assert_eq!(drops.get(), 2);
    assert_eq!(chain_values(&list), vec![2, 4, 5]);
    let arena = list.arena();
    let held = (0..arena.slots()).filter(|address| arena.contains(*address)).count();
    assert_eq!(held, 3);

    list.clear();
    assert_eq!(drops.get(), 5);
    assert!(list.is_empty());
    assert_eq!(list.len(), 0);
    list.clear();
    assert_eq!(drops.get(), 5);
    assert!(list.is_empty());

    let list = chain_of(&[6, 7], &drops);
    drop(list);
    assert_eq!(drops.get(), 7);
}

#[test]
fn single_list_edges() {
    let drops = Rc::new(Cell::new(0));
    let mut list = NtBoxingSingleListHead::<CountedLink, Chain>::default();
    assert!(list.is_empty());
    assert!(list.pop_front().is_none());
    assert!(list.front().is_none());
    assert!(list.front_mut().is_none());
    assert!(list.iter().next().is_none());
    assert!(list.iter_mut().next().is_none());
    list.retain(|_| true);
    assert_eq!(list.len(), 0);

    list.push_front(CountedLink { value: 1, drops: drops.clone() });
    assert_eq!(list.pop_front().unwrap().value, 1);
    assert!(list.is_empty());
    assert_eq!(list.len(), 0);

    let mut list = chain_of(&[1, 2, 3], &drops);
    list.front_mut().unwrap().value = 10;
    {
        let mut iter = list.iter_mut();
        while let Some(element) = iter.next() {
            element.value *= 2;
        }
    }
    assert_eq!(chain_values(&list), vec![20, 4, 6]);
    assert_eq!(list.inner().first(), list.inner().first());
    assert_eq!(list.arena().get(list.inner().first()).value, 20);
}

#[test]
fn single_list_keeps_reversed_push_order_under_retain() {
    let mut list = NtBoxingSingleListHead::<CountedLink, Chain>::new();
    let drops = Rc::new(Cell::new(0));
    for value in 0..10 {
        list.push_front(CountedLink { value, drops: drops.clone() });
    }
    assert_eq!(chain_values(&list), vec![9, 8, 7, 6, 5, 4, 3, 2, 1, 0]);
    list.retain(|element| element.value % 2 == 0);
    assert_eq!(list.len(), 5);
    assert_eq!(chain_values(&list), vec![8, 6, 4, 2, 0]);
}
