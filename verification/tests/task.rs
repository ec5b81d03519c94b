use rust_model_core::task::TaskAction;
use rust_model_core::task::TaskState;
use rust_model_core::task::TaskTable;
use std::collections::HashSet;

fn set(ids: &[usize]) -> HashSet<usize> {
    ids.iter().copied().collect()
}

#[test]
fn new_table_is_empty() {
    let table = TaskTable::new(3);
    for node in 0..3 {
        assert_eq!(table.state(node), None);
    }
    assert_eq!(table.first_unfinished(), Some(0));
    assert_eq!(TaskTable::new(0).first_unfinished(), None);
}

#[test]
fn task_without_dependencies_runs_at_once() {
    let mut table = TaskTable::new(1);
    assert!(table.spawn(0));
    assert_eq!(table.state(0), Some(TaskState::Pending));
    assert_eq!(table.poll(0, &set(&[])), TaskAction::Compute);
    assert_eq!(table.state(0), Some(TaskState::Computing));
    assert!(table.commit(0));
    assert_eq!(table.state(0), Some(TaskState::Committed));
    assert_eq!(table.first_unfinished(), None);
}

#[test]
fn task_waits_for_its_producer() {
    let mut table = TaskTable::new(2);
    assert!(table.spawn(0));
    assert!(table.spawn(1));
    let deps = set(&[0]);

    assert_eq!(table.poll(1, &deps), TaskAction::Wait(0));
    assert_eq!(table.state(1), Some(TaskState::WaitingOnDependencies));

    assert_eq!(table.poll(0, &set(&[])), TaskAction::Compute);
    assert_eq!(table.poll(1, &deps), TaskAction::Wait(0));

    assert!(table.commit(0));
    assert_eq!(table.first_unfinished(), Some(1));
    assert_eq!(table.poll(1, &deps), TaskAction::Compute);
    assert_eq!(table.state(1), Some(TaskState::Computing));
    assert!(table.commit(1));
    assert_eq!(table.first_unfinished(), None);
}

#[test]
fn task_waits_for_a_producer_that_was_not_started() {
    let mut table = TaskTable::new(2);
    assert!(table.spawn(1));
    assert_eq!(table.poll(1, &set(&[0])), TaskAction::Wait(0));
}

#[test]
fn task_runs_once() {
    let mut table = TaskTable::new(1);
    assert_eq!(table.poll(0, &set(&[])), TaskAction::Idle);
    assert!(!table.commit(0));
    assert!(table.spawn(0));
    assert!(!table.spawn(0));
    assert!(!table.commit(0));
    assert_eq!(table.poll(0, &set(&[])), TaskAction::Compute);
    assert_eq!(table.poll(0, &set(&[])), TaskAction::Idle);
    assert!(table.commit(0));
    assert!(!table.commit(0));
    assert!(!table.spawn(0));
    assert_eq!(table.poll(0, &set(&[])), TaskAction::Idle);
    assert_eq!(table.state(0), Some(TaskState::Committed));
}

#[test]
fn task_with_two_producers_waits_for_both() {
    let mut table = TaskTable::new(3);
    for node in 0..3 {
        assert!(table.spawn(node));
    }
    let deps = set(&[0, 1]);
    assert_eq!(table.poll(0, &set(&[])), TaskAction::Compute);
    assert!(table.commit(0));
    assert_eq!(table.poll(2, &deps), TaskAction::Wait(1));
    assert_eq!(table.poll(1, &set(&[])), TaskAction::Compute);
    assert!(table.commit(1));
    assert_eq!(table.poll(2, &deps), TaskAction::Compute);
}
