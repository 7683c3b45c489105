use std::cell::Cell;
use std::rc::Rc;

use nt_list::list::NtList;
use nt_list::list_entry::BoxingListHead;
use nt_list::{NtBoxedListElement, NtListElement, NtTypedList};

enum Timers {}

impl NtTypedList for Timers {
    type T = NtList;
}

struct Timer {
    due: u64,
    drops: Rc<Cell<usize>>,
}

impl Drop for Timer {
    fn drop(&mut self) {
        self.drops.set(self.drops.get() + 1);
    }
}

impl NtListElement<Timers> for Timer {}

impl NtBoxedListElement for Timer {
    type L = Timers;
}

fn timers(dues: &[u64], drops: &Rc<Cell<usize>>) -> BoxingListHead<Timer, Timers> {
    let mut list = BoxingListHead::new();
    for due in dues {
        list.push_back(Timer { due: *due, drops: drops.clone() });
    }
    list
}

fn dues(list: &BoxingListHead<Timer, Timers>) -> Vec<u64> {
    let mut iter = list.iter();
    let mut dues = Vec::new();
    while let Some(timer) = iter.next() {
        dues.push(timer.due);
    }
    dues
}

#[test]
fn list_entry_clear_retains_nothing() {
    let drops = Rc::new(Cell::new(0));
    let mut list = timers(&[5, 6, 7], &drops);
    assert_eq!(list.len(), 3);
    list.clear();
    assert_eq!(drops.get(), 3);
    assert!(list.is_empty());
    assert_eq!(list.len(), 0);
    let end = list.inner().end_marker();
    assert_eq!(list.arena().flink(end), end);
    assert_eq!(list.arena().blink(end), end);
    list.clear();
    assert_eq!(drops.get(), 3);
    assert!(list.is_empty());
}

#[test]
fn list_entry_list_works_at_both_ends() {
    let drops = Rc::new(Cell::new(0));
    let mut list = timers(&[2, 3], &drops);
    list.push_front(Timer { due: 1, drops: drops.clone() });
    assert_eq!(dues(&list), vec![1, 2, 3]);
    assert_eq!(list.front().unwrap().due, 1);
    assert_eq!(list.back().unwrap().due, 3);
    list.front_mut().unwrap().due = 10;
    list.back_mut().unwrap().due = 30;
    assert_eq!(dues(&list), vec![10, 2, 30]);
    assert_eq!(list.pop_front().unwrap().due, 10);
    assert_eq!(list.pop_back().unwrap().due, 30);
    assert_eq!(list.len(), 1);
    assert_eq!(drops.get(), 2);

    let mut other = timers(&[4, 5], &drops);
    list.append(&mut other);
    assert_eq!(dues(&list), vec![2, 4, 5]);
    assert!(other.is_empty());

    list.retain(|timer| timer.due != 4);
    assert_eq!(dues(&list), vec![2, 5]);
    assert_eq!(drops.get(), 3);

    {
        let mut iter = list.iter_mut();
        while let Some(timer) = iter.next_back() {
            timer.due += 1;
        }
    }
    assert_eq!(dues(&list), vec![3, 6]);
    drop(list);
    assert_eq!(drops.get(), 5);
}

#[test]
fn list_entry_empty_list() {
    let mut list = BoxingListHead::<Timer, Timers>::new();
    assert!(list.is_empty());
    assert!(list.front().is_none());
    assert!(list.back().is_none());
    assert!(list.front_mut().is_none());
    assert!(list.back_mut().is_none());
    assert!(list.pop_front().is_none());
    assert!(list.pop_back().is_none());
    list.clear();
    list.retain(|_| true);
    assert_eq!(list.len(), 0);
}
