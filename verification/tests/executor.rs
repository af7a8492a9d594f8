use std::sync::Arc;
use whorl::futures::Poll;
use whorl::runtime::{start, Blocking, Executor, Task, Waker};

fn next(executor: &mut Executor<&'static str>) -> Option<(&'static str, usize)> {
    executor.next_task().map(|task| (task.future, task.tag))
}

#[test]
fn new_executor_is_idle() {
    let mut executor: Executor<&'static str> = start();
    assert!(!executor.is_polling());
    assert!(executor.has_tags());
    assert!(executor.interface().wait());
    assert_eq!(next(&mut executor), None);
    assert!(!executor.is_polling());
}

#[test]
fn tasks_take_turns_until_they_are_ready() {
    let mut executor: Executor<&'static str> = start();
    executor.interface().spawn("a");
    executor.interface().spawn("b");
    executor.interface().spawn("c");
    assert_eq!(next(&mut executor), Some(("a", 0)));
    assert!(executor.is_polling());
    assert!(!executor.finish_poll(Poll::Pending));
    assert_eq!(next(&mut executor), Some(("b", 1)));
    assert!(!executor.finish_poll(Poll::Ready));
    assert_eq!(next(&mut executor), Some(("c", 2)));
    assert!(!executor.finish_poll(Poll::Pending));
    assert_eq!(next(&mut executor), Some(("a", 0)));
    assert!(!executor.finish_poll(Poll::Pending));
    assert_eq!(next(&mut executor), Some(("c", 2)));
    assert!(!executor.finish_poll(Poll::Ready));
    assert_eq!(next(&mut executor), Some(("a", 0)));
    assert!(!executor.finish_poll(Poll::Ready));
    assert_eq!(next(&mut executor), None);
}

#[test]
fn blocking_task_is_polled_until_it_is_ready() {
    let mut executor: Executor<&'static str> = start();
    executor.interface().spawn("a");
    executor.interface().spawn("b");
    executor.interface().block_on("c");
    assert_eq!(next(&mut executor), Some(("c", 2)));
    assert!(executor.finish_poll(Poll::Pending));
    executor.interface().block_on("d");
    executor.interface().spawn("e");
    assert!(executor.finish_poll(Poll::Pending));
    assert_eq!(executor.interface().sent_len(), 0);
    assert!(executor.is_polling());
    assert!(!executor.finish_poll(Poll::Ready));
    assert!(!executor.is_polling());
    assert_eq!(next(&mut executor), Some(("d", 3)));
    assert!(!executor.finish_poll(Poll::Ready));
    assert_eq!(next(&mut executor), Some(("a", 0)));
    assert!(!executor.finish_poll(Poll::Ready));
    assert_eq!(next(&mut executor), Some(("b", 1)));
    assert!(!executor.finish_poll(Poll::Ready));
    assert_eq!(next(&mut executor), Some(("e", 4)));
}

#[test]
fn last_of_several_to_block_on_comes_first() {
    let mut executor: Executor<&'static str> = start();
    executor.interface().block_on("a");
    executor.interface().spawn("b");
    executor.interface().block_on("c");
    executor.interface().spawn("d");
    let mut order: Vec<&'static str> = Vec::new();
    while let Some((future, _)) = next(&mut executor) {
        order.push(future);
        assert!(!executor.finish_poll(Poll::Ready));
    }
    assert_eq!(order, vec!["c", "a", "b", "d"]);
}

#[test]
fn pending_task_lines_up_before_what_is_received_later() {
    let mut executor: Executor<&'static str> = start();
    executor.interface().spawn("a");
    assert_eq!(next(&mut executor), Some(("a", 0)));
    executor.interface().spawn("b");
    assert!(!executor.finish_poll(Poll::Pending));
    assert_eq!(next(&mut executor), Some(("a", 0)));
}

#[test]
fn tags_are_not_used_again() {
    let mut executor: Executor<&'static str> = start();
    executor.interface().spawn("a");
    executor.interface().block_on("b");
    assert_eq!(next(&mut executor), Some(("b", 1)));
    executor.finish_poll(Poll::Ready);
    executor.interface().drop_task();
    assert_eq!(next(&mut executor), Some(("a", 0)));
    executor.finish_poll(Poll::Ready);
    executor.interface().drop_task();
    assert!(executor.interface().wait());
    executor.interface().spawn("c");
    assert_eq!(next(&mut executor), Some(("c", 2)));
}

#[test]
fn pending_task_that_was_woken_stands_on_the_queue_twice() {
    let mut executor: Executor<&'static str> = start();
    executor.interface().spawn("a");
    executor.interface().spawn("b");
    let task: Arc<Task<&'static str>> = executor.next_task().unwrap();
    executor.wake(task.waker());
    assert!(!executor.finish_poll(Poll::Pending));
    let mut order: Vec<usize> = Vec::new();
    for _ in 0..3u32 {
        order.push(next(&mut executor).unwrap().1);
        executor.finish_poll(Poll::Pending);
    }
    assert_eq!(order, vec![1, 0, 0]);
}

#[test]
fn ready_task_is_not_polled_again() {
    let mut executor: Executor<&'static str> = start();
    executor.interface().spawn("a");
    executor.interface().spawn("b");
    let task: Arc<Task<&'static str>> = executor.next_task().unwrap();
    executor.wake(task.waker());
    executor.wake(task.waker());
    assert!(!executor.finish_poll(Poll::Ready));
    executor.wake(Waker { task: task.clone() });
    assert_eq!(next(&mut executor), Some(("b", 1)));
    executor.wake(task.waker());
    assert!(!executor.finish_poll(Poll::Ready));
    executor.wake(task.waker());
    assert_eq!(next(&mut executor), None);
}

#[test]
fn ready_blocking_task_is_not_polled_again() {
    let mut executor: Executor<&'static str> = start();
    executor.interface().block_on("a");
    let task: Arc<Task<&'static str>> = executor.next_task().unwrap();
    assert!(executor.finish_poll(Poll::Pending));
    executor.wake(task.waker());
    assert!(!executor.finish_poll(Poll::Ready));
    executor.wake(task.waker());
    assert_eq!(next(&mut executor), None);
}

#[test]
fn turns_are_fair_while_others_arrive_and_block() {
    let mut executor: Executor<&'static str> = start();
    executor.interface().spawn("a");
    executor.interface().spawn("b");
    executor.interface().spawn("c");
    assert_eq!(next(&mut executor), Some(("a", 0)));
    executor.interface().spawn("d");
    assert!(!executor.finish_poll(Poll::Pending));
    executor.interface().block_on("x");
    let mut order: Vec<&'static str> = Vec::new();
    while let Some((future, _)) = next(&mut executor) {
        order.push(future);
        if future == "b" {
            executor.interface().spawn("e");
            executor.interface().block_on("y");
        }
        if future == "a" {
            break;
        }
        let outcome = if future == "b" { Poll::Pending } else { Poll::Ready };
        executor.finish_poll(outcome);
    }
    assert_eq!(order, vec!["x", "b", "y", "c", "a"]);
}

#[test]
fn first_polls_follow_the_order_of_spawning() {
    let mut executor: Executor<&'static str> = start();
    let mut first: Vec<&'static str> = Vec::new();
    executor.interface().spawn("a");
    executor.interface().spawn("b");
    for later in ["c", "d", "e"] {
        let (future, _) = next(&mut executor).unwrap();
        if !first.contains(&future) {
            first.push(future);
        }
        executor.interface().spawn(later);
        executor.finish_poll(Poll::Pending);
    }
    for _ in 0..8u32 {
        let (future, _) = next(&mut executor).unwrap();
        if !first.contains(&future) {
            first.push(future);
        }
        executor.finish_poll(Poll::Pending);
    }
    assert_eq!(first, vec!["a", "b", "c", "d", "e"]);
}

#[test]
fn future_is_settled_once_it_is_received() {
    let mut executor: Executor<&'static str> = start();
    assert_eq!(executor.last_number(), 0);
    assert!(executor.is_settled(0));
    executor.interface().spawn("a");
    assert_eq!(executor.last_number(), 1);
    executor.interface().spawn("b");
    assert_eq!(executor.last_number(), 2);
    assert!(!executor.is_settled(1));
    assert_eq!(next(&mut executor), Some(("a", 0)));
    assert_eq!(executor.last_number(), 2);
    assert!(executor.is_settled(2));
    assert!(!executor.is_settled(3));
    executor.end();
    assert!(executor.is_settled(3));
}

#[test]
fn nothing_can_be_sent_to_an_executor_that_has_ended() {
    let mut executor: Executor<&'static str> = start();
    executor.interface().spawn("a");
    executor.interface().spawn("b");
    let task = executor.next_task().unwrap();
    executor.interface().spawn("c");
    executor.interface().block_on("d");
    assert!(executor.interface().is_open());
    let (polled, lost) = executor.end();
    assert!(Arc::ptr_eq(&polled.unwrap(), &task));
    assert_eq!(lost.len(), 2);
    assert_eq!(lost[0], (Blocking::NonBlocking, "c"));
    assert_eq!(lost[1], (Blocking::Blocking, "d"));
    assert!(!executor.is_polling());
    assert!(!executor.interface().is_open());
    executor.interface().spawn("e");
    executor.interface().block_on("f");
    assert_eq!(executor.interface().sent_len(), 0);
    executor.interface().drop_task();
    assert!(!executor.interface().wait());
    executor.interface().drop_task();
    assert!(executor.interface().wait());
}

#[test]
fn task_that_was_abandoned_can_still_be_woken() {
    let mut executor: Executor<&'static str> = start();
    executor.interface().spawn("a");
    executor.interface().spawn("b");
    let done = executor.next_task().unwrap();
    executor.finish_poll(Poll::Ready);
    let task = executor.next_task().unwrap();
    let (polled, _) = executor.end();
    drop(polled);
    assert_eq!(Arc::strong_count(&task), 1);
    executor.wake(task.waker());
    assert_eq!(Arc::strong_count(&task), 2);
    executor.wake(done.waker());
    assert_eq!(Arc::strong_count(&done), 1);
}

#[test]
fn waker_is_one_more_handle() {
    let mut executor: Executor<&'static str> = start();
    executor.interface().spawn("a");
    let task = executor.next_task().unwrap();
    assert_eq!(Arc::strong_count(&task), 2);
    let waker = task.waker();
    assert_eq!(Arc::strong_count(&task), 3);
    drop(waker);
    assert_eq!(Arc::strong_count(&task), 2);
    executor.wake(task.waker());
    assert_eq!(Arc::strong_count(&task), 3);
    executor.finish_poll(Poll::Ready);
    assert_eq!(Arc::strong_count(&task), 1);
    executor.wake(task.waker());
    assert_eq!(Arc::strong_count(&task), 1);
    assert_eq!(next(&mut executor), None);
}

#[test]
fn tasks_that_send_others_complete() {
    let mut executor: Executor<u32> = start();
    executor.interface().spawn(3);
    let mut completed: Vec<u32> = Vec::new();
    while let Some(task) = executor.next_task() {
        let size: u32 = task.future;
        for part in 0..size {
            if part % 2 == 0 {
                executor.interface().spawn(part);
            } else {
                executor.interface().block_on(part);
            }
        }
        executor.finish_poll(Poll::Ready);
        executor.interface().drop_task();
        completed.push(size);
    }
    assert_eq!(completed, vec![3, 1, 0, 2, 1, 0, 0, 0]);
    assert!(executor.interface().wait());
}

#[test]
fn every_task_completes() {
    let polls: [u32; 4] = [3, 1, 4, 2];
    let mut left: Vec<u32> = polls.to_vec();
    let mut executor: Executor<usize> = start();
    executor.interface().spawn(0);
    executor.interface().spawn(1);
    executor.interface().block_on(2);
    executor.interface().spawn(3);
    let mut steps: u32 = 0;
    let mut completed: Vec<usize> = Vec::new();
    while !executor.interface().wait() {
        assert!(executor.has_tags());
        steps += 1;
        let task = executor.next_task().unwrap();
        loop {
            steps += 1;
            left[task.future] -= 1;
            let outcome = if left[task.future] == 0 { Poll::Ready } else { Poll::Pending };
            let again = executor.finish_poll(outcome);
            if outcome == Poll::Ready {
                completed.push(task.future);
                executor.interface().drop_task();
            }
            if !again {
                break;
            }
        }
    }
    assert_eq!(completed, vec![2, 1, 3, 0]);
    assert!(steps <= 2 * 10 + 1);
    assert!(executor.next_task().is_none());
}
