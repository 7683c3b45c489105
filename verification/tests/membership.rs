use nt_list::list::{NtBoxingListHead, NtList, NtListArena, NtListHead};
use nt_list::single_list::{NtSingleList, NtSingleListArena, NtSingleListHead};
use nt_list::{NtBoxedListElement, NtListElement, NtTypedList};

/// All tasks, in the order of their arrival. This list owns them.
enum Arrived {}

impl NtTypedList for Arrived {
    type T = NtList;
}

/// The tasks that are ready to run.
enum Ready {}

impl NtTypedList for Ready {
    type T = NtList;
}

/// The tasks that were cancelled.
enum Cancelled {}

impl NtTypedList for Cancelled {
    type T = NtSingleList;
}

struct Task {
    name: &'static str,
}

impl NtListElement<Arrived> for Task {}

impl NtBoxedListElement for Task {
    type L = Arrived;
}

/// A task by its address in the arena of the list that owns it.
struct TaskAt(usize);

impl NtListElement<Ready> for TaskAt {}

impl NtListElement<Cancelled> for TaskAt {}

#[test]
fn an_element_is_a_member_of_several_lists() {
    let mut arrived = NtBoxingListHead::<Task, Arrived>::new();
    for name in ["a", "b", "c", "d"] {
        arrived.push_back(Task { name });
    }

    // The other lists hold the tasks by address and own nothing.
    let mut ready_arena = NtListArena::<TaskAt, Ready>::new();
    let mut ready = NtListHead::new(&mut ready_arena);
    let mut cancelled_arena = NtSingleListArena::<TaskAt, Cancelled>::new();
    let mut cancelled = NtSingleListHead::new();

    let owner = arrived.arena();
    let mut address = owner.flink(arrived.inner().end_marker());
    while address != arrived.inner().end_marker() {
        if owner.get(address).name == "c" {
            let member = cancelled_arena.allocate(Box::new(TaskAt(address)));
            cancelled.push_front(&mut cancelled_arena, member);
        } else {
            let member = ready_arena.allocate(Box::new(TaskAt(address)));
            ready.push_front(&mut ready_arena, member);
        }
        address = owner.flink(address);
    }

    let mut names = Vec::new();
    let mut iter = ready.iter(&ready_arena);
    while let Some(member) = iter.next() {
        names.push(arrived.arena().get(member.0).name);
    }
    assert_eq!(names, vec!["d", "b", "a"]);

    let mut iter = cancelled.iter(&cancelled_arena);
    assert_eq!(arrived.arena().get(iter.next().unwrap().0).name, "c");
    assert!(iter.next().is_none());

    // Leaving a second list does not touch the task or the list that owns it.
    let member = ready.pop_front(&mut ready_arena).unwrap();
    let task = ready_arena.deallocate(member).0;
    assert_eq!(arrived.arena().get(task).name, "d");
    assert_eq!(ready.len(&ready_arena), 2);
    assert_eq!(arrived.len(), 4);
}
