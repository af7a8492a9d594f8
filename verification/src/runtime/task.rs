//! Tasks: the units that the executor runs.
use crate::futures::Poll;
use crate::runtime::queue::requeued;
use crate::runtime::queue::Queue;
use std::sync::Arc;
use vstd::prelude::*;

verus! {

/// Whether a task stops all others while it runs.
#[derive(Clone, Copy, Debug, PartialEq, Eq, Structural)]
pub enum Blocking {
    /// The task takes turns with the others.
    NonBlocking,
    /// The task is polled until it is ready before any other is.
    Blocking,
}

/// A future on its way to completion, with what the executor has to know of it.
///
/// The executor never looks into the future. How it is stored, and how it is
/// polled, is up to the type `F`.
#[derive(Debug)]
pub struct Task<F> {
    /// The future that the task drives.
    pub future: F,
    /// Whether the executor blocks on the task.
    pub block: Blocking,
    /// Tells the task from the others of its runtime.
    pub tag: usize,
}

/// A handle to a task that can put it back on the queue of its runtime.
#[derive(Debug)]
pub struct Waker<F> {
    /// The task to wake.
    pub task: Arc<Task<F>>,
}

impl<F> Task<F> {
    /// A new task.
    pub fn new(tag: usize, block: Blocking, future: F) -> (task: Arc<Self>)
        ensures
            task == Arc::new(Task { future, block, tag }),
    {
        Arc::new(Task { future, block, tag })
    }

    /// A waker for the very same task.
    pub fn waker(self: &Arc<Self>) -> (waker: Waker<F>)
        ensures
            waker == (Waker { task: *self }),
    {
        Waker { task: self.clone() }
    }

    /// Polls the future inside the task, by way of `poller`, which is handed that future
    /// and a waker for the task, and can be called only once. Returns what `poller`
    /// returned.
    pub fn poll<P: FnOnce(&F, Waker<F>) -> Poll>(self: &Arc<Self>, poller: P) -> (outcome: Poll)
        requires
            call_requires(poller, (&self.future, Waker { task: *self })),
        ensures
            call_ensures(poller, (&self.future, Waker { task: *self }), outcome),
    {
        let waker = self.waker();
        poller(&self.future, waker)
    }

    /// Whether the executor blocks on the task.
    pub fn will_block(&self) -> (block: bool)
        ensures
            block == (self.block is Blocking),
    {
        match self.block {
            Blocking::NonBlocking => false,
            Blocking::Blocking => true,
        }
    }

    /// Wakes the task: puts it back on `queue`, in the place that its kind has there.
    pub fn wake(self: Arc<Self>, queue: &mut Queue<F>)
        ensures
            final(queue)@ == requeued(old(queue)@, self),
            self.block is Blocking ==> final(queue)@ == seq![self] + old(queue)@,
            self.block is NonBlocking ==> final(queue)@ == old(queue)@.push(self),
    {
        queue.requeue(self);
    }
}

} // verus!
