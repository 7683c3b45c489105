use nt_list::list::{NtBoxingListHead, NtList, NtListArena, NtListHead};
use nt_list::{NtBoxedListElement, NtListElement, NtTypedList};

enum MyList {}

impl NtTypedList for MyList {
    type T = NtList;
}

#[derive(Default)]
struct MyElement {
    value: i32,
}

impl NtListElement<MyList> for MyElement {}

impl NtBoxedListElement for MyElement {
    type L = MyList;
}

impl MyElement {
    fn new(value: i32) -> Self {
        Self { value }
    }
}

fn values(list: &NtBoxingListHead<MyElement, MyList>) -> Vec<i32> {
    let mut iter = list.iter();
    let mut values = Vec::new();
    while let Some(element) = iter.next() {
        values.push(element.value);
    }
    values
}

fn verify_all_links(head: &NtListHead<MyElement, MyList>, arena: &NtListArena<MyElement, MyList>) {
    let mut current;
    let end = head.end_marker();

    // Traverse the list in forward direction and collect all entries.
    current = arena.flink(end);
    let mut forward_entries = Vec::<usize>::new();

    while current != end {
        if !forward_entries.is_empty() {
            // Verify that the previous entry is referenced by this entry's `blink`.
            assert_eq!(*forward_entries.last().unwrap(), arena.blink(current));
        }

        forward_entries.push(current);
        current = arena.flink(current);
    }

    // Traverse the list in backward direction and collect all entries.
    current = arena.blink(end);
    let mut backward_entries = Vec::<usize>::with_capacity(forward_entries.len());

    while current != end {
        if !backward_entries.is_empty() {
            // Verify that the previous entry is referenced by this entry's `flink`.
            assert_eq!(*backward_entries.last().unwrap(), arena.flink(current));
        }

        backward_entries.push(current);
        current = arena.blink(current);
    }

    // Verify that `backward_entries` is the exact reverse of `forward_entries`.
    assert_eq!(forward_entries.len(), backward_entries.len());

    for (fe, be) in forward_entries.iter().zip(backward_entries.iter().rev()) {
        assert_eq!(fe, be);
    }
}

#[test]
fn test_append() {
    // Append two lists of equal size.
    let mut list1 = NtBoxingListHead::<MyElement, MyList>::new();
    let mut list2 = NtBoxingListHead::<MyElement, MyList>::new();

    for i in 0..10 {
        list1.push_back(MyElement::new(i));
        list2.push_back(MyElement::new(i));
    }

    list1.append(&mut list2);

    assert_eq!(list1.len(), 20);
    assert_eq!(list2.len(), 0);

    let mut iter = list1.iter();
    for i in (0..10).chain(0..10) {
        let element = iter.next().unwrap();
        assert_eq!(i, element.value);
    }

    verify_all_links(list1.inner(), list1.arena());

    // Append the final list to an empty list.
    let mut list3 = NtBoxingListHead::<MyElement, MyList>::new();

    list3.append(&mut list1);

    assert_eq!(list3.len(), 20);
    assert_eq!(list1.len(), 0);

    verify_all_links(list3.inner(), list3.arena());
}

#[test]
fn test_clear_and_append() {
    // Append two lists of equal size.
    let mut list1 = NtBoxingListHead::<MyElement, MyList>::new();
    let mut list2 = NtBoxingListHead::<MyElement, MyList>::new();

    for i in 0..10 {
        list1.push_back(MyElement::new(i));
        list2.push_back(MyElement::new(i));
    }

    list1.append(&mut list2);

    assert_eq!(list1.len(), 20);
    assert_eq!(list2.len(), 0);

    let mut iter = list1.iter();
    for i in (0..10).chain(0..10) {
        let element = iter.next().unwrap();
        assert_eq!(i, element.value);
    }

    verify_all_links(list1.inner(), list1.arena());

    // Add more elements to both lists
    list1.push_back(MyElement::new(21));
    list1.push_front(MyElement::new(22));

    list2.push_back(MyElement::new(21));
    list2.push_front(MyElement::new(22));

    // Append the final list to a cleared list.
    let mut list3 = NtBoxingListHead::<MyElement, MyList>::new();

    list3.clear();
    list3.append(&mut list1);

    assert_eq!(list3.len(), 22);
    assert_eq!(list1.len(), 0);

    verify_all_links(list3.inner(), list3.arena());
}

#[test]
fn test_clear_and_push() {
    let mut list = NtBoxingListHead::<MyElement, MyList>::new();

    list.clear();

    for i in 0..=3 {
        list.push_back(MyElement::new(i));
    }
    for i in 4..=6 {
        list.push_front(MyElement::new(i));
    }

    assert_eq!(list.back().unwrap().value, 3);
    assert_eq!(list.back_mut().unwrap().value, 3);
    assert_eq!(list.front().unwrap().value, 6);
    assert_eq!(list.front_mut().unwrap().value, 6);

    verify_all_links(list.inner(), list.arena());
}

#[test]
fn test_back_and_front() {
    let mut list = NtBoxingListHead::<MyElement, MyList>::new();

    for i in 0..=3 {
        list.push_back(MyElement::new(i));
    }

    assert_eq!(list.back().unwrap().value, 3);
    assert_eq!(list.back_mut().unwrap().value, 3);
    assert_eq!(list.front().unwrap().value, 0);
    assert_eq!(list.front_mut().unwrap().value, 0);
}

#[test]
fn test_extend() {
    let integers = [0, 1, 2, 3, 4, 5];

    let mut list = NtBoxingListHead::<MyElement, MyList>::new();

    list.extend(integers.into_iter().map(MyElement::new).collect());

    let mut iter = list.iter();
    for i in integers.into_iter() {
        let element = iter.next().unwrap();
        assert_eq!(i, element.value);
    }

    verify_all_links(list.inner(), list.arena());
}

#[test]
fn test_pop_back() {
    let mut list = NtBoxingListHead::<MyElement, MyList>::new();

    for i in 0..10 {
        list.push_back(MyElement::new(i));
    }

    for i in (0..10).rev() {
        let element = list.pop_back().unwrap();
        assert_eq!(i, element.value);
        verify_all_links(list.inner(), list.arena());
    }

    assert!(list.is_empty());
}

#[test]
fn test_pop_front() {
    let mut list = NtBoxingListHead::<MyElement, MyList>::new();

    for i in 0..10 {
        list.push_back(MyElement::new(i));
    }

    for i in 0..10 {
        let element = list.pop_front().unwrap();
        assert_eq!(i, element.value);
        verify_all_links(list.inner(), list.arena());
    }

    assert!(list.is_empty());
}

#[test]
fn test_push_back() {
    let mut list = NtBoxingListHead::<MyElement, MyList>::new();

    for i in 0..10 {
        list.push_back(MyElement::new(i));
    }

    assert_eq!(list.len(), 10);

    let mut iter = list.iter();
    for i in 0..10 {
        let element = iter.next().unwrap();
        assert_eq!(i, element.value);
    }

    verify_all_links(list.inner(), list.arena());
}

#[test]
fn test_push_front() {
    let mut list = NtBoxingListHead::<MyElement, MyList>::new();

    for i in 0..10 {
        list.push_front(MyElement::new(i));
    }

    assert_eq!(list.len(), 10);

    let mut iter = list.iter();
    for i in (0..10).rev() {
        let element = iter.next().unwrap();
        assert_eq!(i, element.value);
    }

    verify_all_links(list.inner(), list.arena());
}

#[test]
fn test_retain() {
    let mut list = NtBoxingListHead::<MyElement, MyList>::new();

    for i in 0..10 {
        list.push_back(MyElement::new(i));
    }

    // Keep only the even elements.
    list.retain(|element| element.value % 2 == 0);

    assert_eq!(list.len(), 5);

    let mut iter = list.iter();
    for i in (0..10).step_by(2) {
        let element = iter.next().unwrap();
        assert_eq!(i, element.value);
    }

    verify_all_links(list.inner(), list.arena());

    // Keep only the first and last of the remaining elements.
    list.retain(|element| element.value == 0 || element.value == 8);

    let mut iter = list.iter();
    assert_eq!(iter.next().unwrap().value, 0);
    assert_eq!(iter.next().unwrap().value, 8);
    assert!(matches!(iter.next(), None));
}

#[test]
fn three_pushes_from_both_ends() {
    let mut list = NtBoxingListHead::<MyElement, MyList>::new();
    list.push_back(MyElement::new(1));
    list.push_back(MyElement::new(2));
    list.push_back(MyElement::new(3));

    assert_eq!(list.len(), 3);
    assert_eq!(list.front().unwrap().value, 1);
    assert_eq!(list.back().unwrap().value, 3);
    assert_eq!(values(&list), vec![1, 2, 3]);

    let mut iter = list.iter();
    let mut backward = Vec::new();
    while let Some(element) = iter.next_back() {
        backward.push(element.value);
    }
    assert_eq!(backward, vec![3, 2, 1]);
}
