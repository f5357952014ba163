use corun::executor::{
    Executor, Inner, RunAction, Task, TaskState, DEFAULT_PRIORITY, MAX_PRIORITY,
};

/// Steps the run loop until the end of the current sweep and returns the
/// tasks it handed out, as (priority, key, task).
fn sweep(e: &mut Executor) -> Vec<(usize, usize, u64)> {
    let mut polled = Vec::new();
    for _ in 0..100_000 {
        match e.run_step() {
            RunAction::Poll { priority, key, task } => polled.push((priority, key, task)),
            RunAction::Advance => {}
            RunAction::SweepDone => return polled,
        }
    }
    panic!("sweep did not end");
}

#[test]
fn constants() {
    assert_eq!(DEFAULT_PRIORITY, 4);
    assert_eq!(MAX_PRIORITY, 32);
}

#[test]
fn empty_executor_sweeps_without_polling() {
    let mut e = Executor::new();
    assert_eq!(sweep(&mut e), vec![]);
    assert_eq!(sweep(&mut e), vec![]);
}

#[test]
fn first_step_of_a_sweep_reads_the_level() {
    let mut e = Executor::new();
    assert_eq!(e.run_step(), RunAction::Advance);
}

#[test]
fn keys_are_handed_out_in_order() {
    let mut e = Executor::new();
    assert_eq!(e.add_task(0, 10), 0);
    assert_eq!(e.add_task(0, 11), 1);
    assert_eq!(e.add_task(3, 12), 0);
}

#[test]
fn spawned_task_is_polled_once() {
    let mut e = Executor::new();
    let k = e.add_task(DEFAULT_PRIORITY, 42);
    assert_eq!(sweep(&mut e), vec![(DEFAULT_PRIORITY, k as usize, 42)]);
    assert_eq!(sweep(&mut e), vec![]);
}

#[test]
fn step_sequence_of_one_task() {
    let mut e = Executor::new();
    assert_eq!(e.add_task(0, 9), 0);
    // level 0: read page count, drain page 0, hand out key 0, leave level.
    assert_eq!(e.run_step(), RunAction::Advance);
    assert_eq!(e.run_step(), RunAction::Advance);
    assert_eq!(e.run_step(), RunAction::Poll { priority: 0, key: 0, task: 9 });
    assert_eq!(e.run_step(), RunAction::Advance);
}

#[test]
fn notify_makes_task_polled_again() {
    let mut e = Executor::new();
    let k = e.add_task(2, 5) as usize;
    assert_eq!(sweep(&mut e).len(), 1);
    e.notify(2, k);
    assert_eq!(sweep(&mut e), vec![(2, k, 5)]);
    e.notify(2, k);
    e.notify(2, k);
    assert_eq!(sweep(&mut e), vec![(2, k, 5)]);
}

#[test]
fn finished_task_is_not_polled_unless_notified() {
    let mut e = Executor::new();
    let k = e.add_task(1, 3) as usize;
    let polled = sweep(&mut e);
    assert_eq!(polled, vec![(1, k, 3)]);
    e.finish_poll(1, k, true);
    assert_eq!(sweep(&mut e), vec![]);
    e.finish_poll(1, k, false);
    assert_eq!(sweep(&mut e), vec![]);
}

#[test]
fn priorities_are_swept_highest_first() {
    let mut e = Executor::new();
    let a = e.add_task(7, 70) as usize;
    let b = e.add_task(0, 0) as usize;
    let c = e.add_task(15, 150) as usize;
    let d = e.add_task(0, 1) as usize;
    assert_eq!(sweep(&mut e), vec![(0, b, 0), (0, d, 1), (7, a, 70), (15, c, 150)]);
}

#[test]
fn every_priority_is_polled() {
    let mut e = Executor::new();
    let k = e.add_task(16, 1) as usize;
    let l = e.add_task(MAX_PRIORITY - 1, 2) as usize;
    assert_eq!(sweep(&mut e), vec![(16, k, 1), (MAX_PRIORITY - 1, l, 2)]);
    e.notify(16, k);
    assert_eq!(sweep(&mut e), vec![(16, k, 1)]);
    assert!(e.contains_task(16, k));
}

#[test]
fn tasks_span_several_pages() {
    let mut e = Executor::new();
    for i in 0..130u64 {
        assert_eq!(e.add_task(0, i), i);
    }
    let polled = sweep(&mut e);
    assert_eq!(polled.len(), 130);
    for (i, t) in polled.iter().enumerate() {
        assert_eq!(*t, (0, i, i as u64));
    }
    e.notify(0, 129);
    e.notify(0, 64);
    e.notify(0, 1);
    assert_eq!(sweep(&mut e), vec![(0, 1, 1), (0, 64, 64), (0, 129, 129)]);
}

#[test]
fn task_added_mid_sweep_waits_for_next_sweep_when_its_page_is_new() {
    let mut e = Executor::new();
    for i in 0..64u64 {
        e.add_task(0, i);
    }
    // start level 0: it has one page.
    assert_eq!(e.run_step(), RunAction::Advance);
    // a second page appears after the level's page count was read.
    assert_eq!(e.add_task(0, 64), 64);
    let polled = sweep(&mut e);
    assert_eq!(polled.len(), 64);
    assert_eq!(sweep(&mut e), vec![(0, 64, 64)]);
}

#[test]
fn contains_task_checks_priority_and_key() {
    let mut e = Executor::new();
    let k = e.add_task(5, 1) as usize;
    assert!(e.contains_task(5, k));
    assert!(!e.contains_task(5, k + 1));
    assert!(!e.contains_task(6, k));
    assert!(!e.contains_task(MAX_PRIORITY, k));
}

#[test]
fn task_state_transitions() {
    let mut t = Task::new(DEFAULT_PRIORITY);
    assert_eq!(t.state, TaskState::Runnable);
    assert_eq!(t.priority, 4);
    assert!(t._is_runnable());
    t._block();
    assert_eq!(t.state, TaskState::Blocked);
    assert!(!t._is_runnable());
    t.wake_by_ref();
    assert!(t._is_runnable());
    t.state = TaskState::Running;
    assert!(!t._is_runnable());
}

#[test]
fn task_priority_is_truncated_to_a_byte() {
    assert_eq!(Task::new(300).priority, 44);
    assert_eq!(Task::new(31).priority, 31);
}

#[test]
fn sweep_of_empty_executor_takes_two_steps_per_priority() {
    let mut e = Executor::new();
    let mut steps = 0;
    loop {
        steps += 1;
        if e.run_step() == RunAction::SweepDone {
            break;
        }
    }
    assert_eq!(steps, 2 * MAX_PRIORITY + 1);
}

#[test]
fn inner_level_stores_and_finds_tasks() {
    let mut l = Inner::new();
    assert!(!l.contains(0));
    assert_eq!(l.insert(17), 0);
    assert_eq!(l.insert(18), 1);
    assert!(l.contains(1));
    assert!(!l.contains(2));
    assert_eq!(l.task(0), 17);
    assert_eq!(l.task(1), 18);
    let (page, slot) = l.page(1);
    assert_eq!(slot, 1);
    let mut copy = *page;
    assert_eq!(copy.take_notified(), 0b11);
    assert_eq!(l.take_page(0), (0b11, 0));
    assert_eq!(l.take_page(0), (0, 0));
    l.notify(1);
    l.mark_dropped(0);
    assert_eq!(l.take_page(0), (0b10, 0b01));
}

#[test]
fn inner_level_grows_pages_for_high_keys() {
    let mut l = Inner::new();
    for i in 0..65u64 {
        assert_eq!(l.insert(i), i);
    }
    let (_page, slot) = l.page(64);
    assert_eq!(slot, 0);
    assert_eq!(l.take_page(1), (1, 0));
}

#[test]
fn woken_task_is_polled_again_and_finished_one_is_not() {
    let mut e = Executor::new();
    let a = e.add_task(3, 30) as usize;
    let b = e.add_task(3, 31) as usize;
    // During the sweep, a completes and b is woken again after its poll.
    let mut polled = Vec::new();
    loop {
        match e.run_step() {
            RunAction::Poll { priority, key, task } => {
                polled.push((priority, key, task));
                e.finish_poll(priority, key, key == a);
                if key == b {
                    e.notify(priority, key);
                }
            }
            RunAction::Advance => {}
            RunAction::SweepDone => break,
        }
    }
    assert_eq!(polled, vec![(3, a, 30), (3, b, 31)]);
    assert_eq!(sweep(&mut e), vec![(3, b, 31)]);
    assert_eq!(sweep(&mut e), vec![]);
}

#[test]
fn task_woken_before_its_page_is_drained_is_polled_once() {
    let mut e = Executor::new();
    let k = e.add_task(0, 5) as usize;
    e.notify(0, k);
    e.notify(0, k);
    assert_eq!(sweep(&mut e), vec![(0, k, 5)]);
    assert_eq!(sweep(&mut e), vec![]);
}

#[test]
fn task_woken_after_its_page_was_drained_is_polled_next_sweep() {
    let mut e = Executor::new();
    let a = e.add_task(0, 1) as usize;
    let b = e.add_task(0, 2) as usize;
    // Drain level 0's page, then wake a before the sweep ends.
    assert_eq!(e.run_step(), RunAction::Advance);
    assert_eq!(e.run_step(), RunAction::Advance);
    e.notify(0, a);
    assert_eq!(sweep(&mut e), vec![(0, a, 1), (0, b, 2)]);
    assert_eq!(sweep(&mut e), vec![(0, a, 1)]);
}

#[test]
fn whole_sweep_order_is_priority_then_page_then_slot() {
    let mut e = Executor::new();
    for i in 0..70u64 {
        e.add_task(2, i);
    }
    e.add_task(1, 100);
    let polled = sweep(&mut e);
    assert_eq!(polled.len(), 71);
    assert_eq!(polled[0], (1, 0, 100));
    for w in polled.windows(2) {
        assert!(w[0].0 < w[1].0 || (w[0].0 == w[1].0 && w[0].1 < w[1].1));
    }
}
