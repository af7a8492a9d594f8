use std::sync::Arc;
use whorl::futures::Poll;
use whorl::runtime::{Blocking, Queue, Task};

fn drain(queue: &mut Queue<u32>) -> Vec<u32> {
    let mut futures: Vec<u32> = Vec::new();
    while let Some(task) = queue.dequeue() {
        futures.push(task.future);
    }
    futures
}

fn task(future: u32, block: Blocking) -> Arc<Task<u32>> {
    Task::new(future as usize, block, future)
}

#[test]
fn empty_queue_gives_no_task() {
    let mut queue: Queue<u32> = Queue::new();
    assert!(queue.dequeue().is_none());
    assert!(queue.dequeue().is_none());
}

#[test]
fn tasks_that_do_not_block_come_out_in_order() {
    let mut queue: Queue<u32> = Queue::new();
    for future in 0..5u32 {
        queue.requeue(task(future, Blocking::NonBlocking));
    }
    assert_eq!(drain(&mut queue), vec![0, 1, 2, 3, 4]);
}

#[test]
fn tasks_that_block_come_out_first_and_last_in_first_out() {
    let mut queue: Queue<u32> = Queue::new();
    queue.requeue(task(1, Blocking::NonBlocking));
    queue.requeue(task(2, Blocking::Blocking));
    queue.requeue(task(3, Blocking::NonBlocking));
    queue.requeue(task(4, Blocking::Blocking));
    assert_eq!(drain(&mut queue), vec![4, 2, 1, 3]);
}

#[test]
fn blocking_task_leaves_the_others_as_they_were() {
    let mut queue: Queue<u32> = Queue::new();
    queue.requeue(task(1, Blocking::NonBlocking));
    queue.requeue(task(2, Blocking::NonBlocking));
    queue.requeue(task(3, Blocking::Blocking));
    assert_eq!(queue.dequeue().unwrap().future, 3);
    assert_eq!(drain(&mut queue), vec![1, 2]);
}

#[test]
fn woken_task_goes_to_its_place() {
    let mut queue: Queue<u32> = Queue::new();
    let first = task(1, Blocking::NonBlocking);
    queue.requeue(first.clone());
    queue.requeue(task(2, Blocking::NonBlocking));
    first.wake(&mut queue);
    task(3, Blocking::Blocking).wake(&mut queue);
    assert_eq!(drain(&mut queue), vec![3, 1, 2, 1]);
}

#[test]
fn task_knows_what_it_was_made_of() {
    let blocking = Task::new(7, Blocking::Blocking, "future");
    assert!(blocking.will_block());
    assert_eq!(blocking.tag, 7);
    assert_eq!(blocking.future, "future");
    assert!(!Task::new(8, Blocking::NonBlocking, ()).will_block());
}

#[test]
fn waker_stands_for_its_task() {
    let one = task(1, Blocking::NonBlocking);
    let waker = one.waker();
    assert!(Arc::ptr_eq(&one, &waker.task));
}

#[test]
fn poll_hands_over_the_future_and_a_waker() {
    let one = task(5, Blocking::NonBlocking);
    let outcome = one.poll(|future, waker| {
        assert_eq!(*future, 5);
        assert!(Arc::ptr_eq(&one, &waker.task));
        Poll::Ready
    });
    assert_eq!(outcome, Poll::Ready);
    assert_eq!(one.poll(|_, _| Poll::Pending), Poll::Pending);
}
