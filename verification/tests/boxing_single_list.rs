use nt_list::single_list::{NtBoxingSingleListHead, NtSingleList};
use nt_list::{NtBoxedListElement, NtListElement, NtTypedList};

enum MyList {}

impl NtTypedList for MyList {
    type T = NtSingleList;
}

#[derive(Default)]
struct MyElement {
    value: i32,
}

impl NtListElement<MyList> for MyElement {}

impl NtBoxedListElement for MyElement {
    type L = MyList;
}

impl MyElement {
    fn new(value: i32) -> Self {
        Self { value }
    }
}

#[test]
fn test_front() {
    let mut list = NtBoxingSingleListHead::<MyElement, MyList>::new();

    for i in 0..=3 {
        list.push_front(MyElement::new(i));
    }

    assert_eq!(list.front().unwrap().value, 3);
    assert_eq!(list.front_mut().unwrap().value, 3);
}

#[test]
fn boxing_test_pop_front() {
    let mut list = NtBoxingSingleListHead::<MyElement, MyList>::new();

    for i in 0..10 {
        list.push_front(MyElement::new(i));
    }

    for i in (0..10).rev() {
        let element = list.pop_front().unwrap();
        assert_eq!(i, element.value);
    }

    assert!(list.is_empty());
}

#[test]
fn boxing_test_push_front() {
    let mut list = NtBoxingSingleListHead::<MyElement, MyList>::new();

    for i in 0..10 {
        list.push_front(MyElement::new(i));
    }

    assert_eq!(list.len(), 10);

    let mut iter = list.iter();
    for i in (0..10).rev() {
        let element = iter.next().unwrap();
        assert_eq!(i, element.value);
    }
}

#[test]
fn boxing_test_retain() {
    let mut list = NtBoxingSingleListHead::<MyElement, MyList>::new();

    for i in 0..10 {
        list.push_front(MyElement::new(i));
    }

    // Keep only the even elements.
    list.retain(|element| element.value % 2 == 0);

    assert_eq!(list.len(), 5);

    let mut iter = list.iter();
    for i in (0..=8).rev().step_by(2) {
        let element = iter.next().unwrap();
        assert_eq!(i, element.value);
    }

    // Keep only the first and last of the remaining elements.
    list.retain(|element| element.value == 8 || element.value == 0);

    let mut iter = list.iter();
    assert_eq!(iter.next().unwrap().value, 8);
    assert_eq!(iter.next().unwrap().value, 0);
    assert!(matches!(iter.next(), None));
}
