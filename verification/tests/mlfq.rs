use kernel_core::task::dynamic_mlfq::FeedbackQueue;
use kernel_core::task::dynamic_mlfq::QueueEntry;
use kernel_core::task::dynamic_mlfq::TaskHandle;
use kernel_core::task::dynamic_mlfq::TaskManagerMlfq;
use kernel_core::task::dynamic_mlfq::PRIORITY_LEVEL;
use kernel_core::task::dynamic_mlfq::TIMER_LIMIT;

fn task(id: usize) -> TaskHandle {
    TaskHandle { id, priority: 0 }
}

/// Lowers the task until it waits on `level`.
fn put_on_level(q: &mut FeedbackQueue, id: usize, level: usize) {
    assert!(level >= 1);
    q.low(TaskHandle { id, priority: level - 1 });
}

fn levels(q: &FeedbackQueue) -> Vec<Vec<usize>> {
    (0..PRIORITY_LEVEL)
        .map(|l| (0..q.level_len(l)).map(|i| q.entry(l, i).task.id).collect())
        .collect()
}

fn level_of(q: &FeedbackQueue, id: usize) -> Vec<usize> {
    let mut found = Vec::new();
    for l in 0..PRIORITY_LEVEL {
        for i in 0..q.level_len(l) {
            if q.entry(l, i).task.id == id {
                found.push(l);
            }
        }
    }
    found
}

fn sweep(q: &mut FeedbackQueue) {
    for _ in 0..TIMER_LIMIT {
        q.check_priority();
    }
}

#[test]
fn constants() {
    assert_eq!(PRIORITY_LEVEL, 16);
    assert_eq!(TIMER_LIMIT, 10);
}

#[test]
fn new_tasks_enter_on_level_zero_in_order() {
    let mut q = FeedbackQueue::new();
    assert_eq!(q.fetch(), None);
    q.add(TaskHandle { id: 1, priority: 9 });
    q.add(task(2));
    assert_eq!(q.level_len(0), 2);
    assert_eq!(q.entry(0, 0), QueueEntry { task: task(1), ready_time: 0 });
    assert_eq!(q.fetch(), Some(task(1)));
    assert_eq!(q.fetch(), Some(task(2)));
    assert_eq!(q.fetch(), None);
}

#[test]
fn a_task_that_used_its_slice_comes_back_one_level_lower() {
    let mut q = FeedbackQueue::new();
    q.add(task(1));
    let t = q.fetch().unwrap();
    q.low(t);
    assert_eq!(q.level_len(0), 0);
    assert_eq!(q.entry(1, 0).task, TaskHandle { id: 1, priority: 1 });
    let t = q.fetch().unwrap();
    assert_eq!(t, TaskHandle { id: 1, priority: 1 });
    q.low(t);
    assert_eq!(level_of(&q, 1), vec![2]);
}

#[test]
fn the_lowest_level_is_the_last() {
    let mut q = FeedbackQueue::new();
    q.low(TaskHandle { id: 4, priority: 14 });
    assert_eq!(level_of(&q, 4), vec![15]);
    let t = q.fetch().unwrap();
    assert_eq!(t.priority, 15);
    q.low(t);
    assert_eq!(level_of(&q, 4), vec![15]);
}

#[test]
fn the_highest_level_is_served_first() {
    let mut q = FeedbackQueue::new();
    put_on_level(&mut q, 1, 3);
    put_on_level(&mut q, 2, 1);
    q.add(task(3));
    put_on_level(&mut q, 4, 1);
    assert_eq!(q.fetch().unwrap().id, 3);
    assert_eq!(q.fetch().unwrap().id, 2);
    assert_eq!(q.fetch().unwrap().id, 4);
    assert_eq!(q.fetch().unwrap().id, 1);
}

#[test]
fn tick_counts_the_wait_of_every_task() {
    let mut q = FeedbackQueue::new();
    q.add(task(1));
    q.tick();
    q.tick();
    put_on_level(&mut q, 2, 5);
    q.tick();
    assert_eq!(q.entry(0, 0), QueueEntry { task: task(1), ready_time: 3 });
    assert_eq!(q.entry(5, 0).ready_time, 1);
    assert_eq!(q.calculate_ready_time(), Some((1, 3)));
    assert_eq!(levels(&q)[0], vec![1]);
    assert_eq!(levels(&q)[5], vec![2]);
}

#[test]
fn ready_time_of_an_empty_queue() {
    let q = FeedbackQueue::new();
    assert_eq!(q.calculate_ready_time(), None);
}

#[test]
fn sweep_runs_every_tenth_check() {
    let mut q = FeedbackQueue::new();
    put_on_level(&mut q, 1, 15);
    for _ in 0..30 {
        q.tick();
    }
    q.add(task(2));
    for _ in 0..TIMER_LIMIT - 1 {
        q.check_priority();
        assert_eq!(level_of(&q, 1), vec![15]);
    }
    q.check_priority();
    assert_eq!(level_of(&q, 1), vec![0]);
    assert_eq!(level_of(&q, 2), vec![0]);
}

#[test]
fn a_starved_task_is_lifted_to_the_top() {
    let mut q = FeedbackQueue::new();
    // Task 1 has sunk to the lowest level and waits there.
    put_on_level(&mut q, 1, 15);
    for _ in 0..1000 {
        q.tick();
    }
    // Task 2 runs on level 0 and has just come back.
    q.add(task(2));
    sweep(&mut q);
    assert_eq!(level_of(&q, 1), vec![0]);
    assert_eq!(level_of(&q, 2), vec![0]);
    // The starved task kept its wait and runs next but one.
    assert_eq!(q.entry(0, 0).task.id, 2);
    assert_eq!(q.entry(0, 1), QueueEntry { task: task(1), ready_time: 1000 });
}

#[test]
fn a_starved_task_is_lifted_even_by_a_short_wait() {
    let mut q = FeedbackQueue::new();
    put_on_level(&mut q, 1, 15);
    q.tick();
    q.add(task(2));
    // The span of the waits is below the number of levels: the step is 0.
    sweep(&mut q);
    assert_eq!(level_of(&q, 1), vec![0]);
}

#[test]
fn sweep_lifts_by_the_wait() {
    let mut q = FeedbackQueue::new();
    // Waits 150, 75, 10 and 0: the step is (150 - 0) / 15 = 10.
    put_on_level(&mut q, 1, 15);
    for _ in 0..75 {
        q.tick();
    }
    put_on_level(&mut q, 2, 15);
    for _ in 0..65 {
        q.tick();
    }
    put_on_level(&mut q, 3, 15);
    for _ in 0..10 {
        q.tick();
    }
    put_on_level(&mut q, 4, 15);
    q.update_priority(0, 150);
    assert_eq!(level_of(&q, 1), vec![0]);
    // 75 / 10 rounded up is 8.
    assert_eq!(level_of(&q, 2), vec![7]);
    assert_eq!(level_of(&q, 3), vec![14]);
    assert_eq!(level_of(&q, 4), vec![15]);
    assert_eq!(q.entry(7, 0), QueueEntry { task: TaskHandle { id: 2, priority: 7 }, ready_time: 75 });
}

#[test]
fn sweep_keeps_the_order_within_a_level() {
    let mut q = FeedbackQueue::new();
    put_on_level(&mut q, 1, 2);
    put_on_level(&mut q, 2, 1);
    put_on_level(&mut q, 3, 2);
    for _ in 0..5 {
        q.tick();
    }
    q.add(task(4));
    // All but task 4 have waited longer than the shortest wait.
    q.update_priority(0, 5);
    assert_eq!(levels(&q)[0], vec![4, 2, 1, 3]);
    for l in 1..PRIORITY_LEVEL {
        assert_eq!(q.level_len(l), 0);
    }
}

#[test]
fn sweep_of_equal_waits_moves_nothing() {
    let mut q = FeedbackQueue::new();
    put_on_level(&mut q, 1, 3);
    put_on_level(&mut q, 2, 7);
    q.tick();
    sweep(&mut q);
    assert_eq!(level_of(&q, 1), vec![3]);
    assert_eq!(level_of(&q, 2), vec![7]);
}

#[test]
fn every_task_waits_once() {
    let mut q = FeedbackQueue::new();
    for id in 0..20 {
        q.add(task(id));
    }
    for round in 0..200 {
        let t = q.fetch().unwrap();
        q.low(t);
        q.tick();
        q.check_priority();
        if round % 7 == 0 {
            let t = q.fetch().unwrap();
            q.add(t);
        }
        for id in 0..20 {
            assert_eq!(level_of(&q, id).len(), 1, "task {} in round {}", id, round);
        }
    }
}

#[test]
fn manager_forwards_to_the_queue() {
    let mut m = TaskManagerMlfq::new();
    assert_eq!(m.fetch(), None);
    m.add(task(1));
    m.add(task(2));
    for _ in 0..TIMER_LIMIT {
        m.check_priority();
    }
    assert_eq!(m.fetch(), Some(task(1)));
    assert_eq!(m.fetch(), Some(task(2)));
    assert_eq!(m.fetch(), None);
}

#[test]
fn sweep_keeps_every_task_once_whatever_the_waits_given() {
    let mut q = FeedbackQueue::new();
    put_on_level(&mut q, 1, 15);
    for _ in 0..40 {
        q.tick();
    }
    put_on_level(&mut q, 2, 9);
    for _ in 0..5 {
        q.tick();
    }
    put_on_level(&mut q, 3, 4);
    // Task 3 has waited 0 and task 2 has waited 5: both below the 30
    // given as the shortest wait, so they stay. Task 1 has waited 45, half
    // a step of 30 above it, which is worth one level.
    q.update_priority(30, 480);
    assert_eq!(level_of(&q, 1), vec![14]);
    assert_eq!(level_of(&q, 2), vec![9]);
    assert_eq!(level_of(&q, 3), vec![4]);
    // A span that is not positive: a wait above the shortest lifts to the top.
    q.update_priority(20, 10);
    assert_eq!(level_of(&q, 1), vec![0]);
    assert_eq!(level_of(&q, 2), vec![9]);
    assert_eq!(level_of(&q, 3), vec![4]);
}
