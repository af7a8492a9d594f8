//! The runtime: what keeps tasks until they are completed, and the rules by which they are
//! polled.
//!
//! Nothing here starts a thread or polls a future by itself. [`start`] sets an [`Executor`]
//! up. Whoever runs it asks it for the next task, polls that task, and reports what came of
//! it, over and over; in the meantime users hand it futures through its [`Interface`].
//!
//! What a runtime keeps to is stated and proved beside that: of each single step in [`steps`],
//! of the queue in [`order`], of all states that an executor can reach in [`history`], of the
//! handles to tasks in [`ownership`], and of the order of turns in [`fairness`], [`turns`] and
//! [`nesting`].
use std::sync::Arc;
use vstd::prelude::*;

pub mod executor;
pub mod fairness;
pub mod handle;
pub mod history;
pub mod interface;
pub mod nesting;
pub mod order;
pub mod ownership;
pub mod queue;
pub mod steps;
pub mod task;
pub mod turns;

pub use crate::runtime::executor::start;
pub use crate::runtime::executor::Executor;
pub use crate::runtime::interface::Interface;
pub use crate::runtime::queue::Queue;
pub use crate::runtime::task::Blocking;
pub use crate::runtime::task::Task;
pub use crate::runtime::task::Waker;

verus! {

/// The state by which an executor drives its tasks to completion.
#[derive(Debug)]
pub struct Runtime<F> {
    /// The tasks that wait to be polled.
    queue: Queue<F>,
    /// How many tasks were made so far. The next one gets this number as its tag.
    tags: usize,
}

/// What a [`Runtime`] holds.
pub struct RuntimeState<F> {
    /// The tasks that wait to be polled, the next one first.
    pub queue: Seq<Arc<Task<F>>>,
    /// How many tasks were made so far.
    pub tags: usize,
}

/// The tasks made of the futures in `sent`, with the tags from `tags` on, in order.
pub open spec fn new_tasks<F>(sent: Seq<(Blocking, F)>, tags: usize) -> Seq<Arc<Task<F>>> {
    Seq::new(
        sent.len(),
        |i: int|
            Arc::new(
                Task { future: sent[i].1, block: sent[i].0, tag: (tags + i) as usize },
            ),
    )
}

impl<F> RuntimeState<F> {
    /// The state after one future was made a task and put on the queue.
    pub open spec fn queue_new(self, block: Blocking, future: F) -> Self {
        RuntimeState {
            queue: queue::requeued(
                self.queue,
                Arc::new(Task { future, block, tag: self.tags }),
            ),
            tags: (self.tags + 1) as usize,
        }
    }

    /// The state after all futures in `sent` were made tasks and put on the queue, the
    /// first one first.
    pub open spec fn queue_all(self, sent: Seq<(Blocking, F)>) -> Self {
        RuntimeState {
            queue: queue::requeued_all(self.queue, new_tasks(sent, self.tags)),
            tags: (self.tags + sent.len()) as usize,
        }
    }
}

impl<F> View for Runtime<F> {
    type V = RuntimeState<F>;

    closed spec fn view(&self) -> RuntimeState<F> {
        RuntimeState { queue: self.queue@, tags: self.tags }
    }
}

impl<F> Runtime<F> {
    /// A runtime without tasks.
    pub fn new() -> (runtime: Self)
        ensures
            runtime@ == (RuntimeState::<F> { queue: Seq::empty(), tags: 0 }),
    {
        Runtime { queue: Queue::new(), tags: 0 }
    }

    /// How many tasks were made so far.
    pub fn tags(&self) -> (tags: usize)
        ensures
            tags == self@.tags,
    {
        self.tags
    }

    /// Makes a task of a future, with a tag of its own, and puts it on the queue.
    pub fn queue_new(&mut self, block: Blocking, future: F)
        requires
            old(self)@.tags < usize::MAX,
        ensures
            final(self)@ == old(self)@.queue_new(block, future),
            final(self)@.tags == old(self)@.tags + 1,
            ({
                let task = Arc::new(Task { future, block, tag: old(self)@.tags });
                &&& block is Blocking ==> final(self)@.queue == seq![task] + old(self)@.queue
                &&& block is NonBlocking ==> final(self)@.queue == old(self)@.queue.push(task)
            }),
    {
        self.queue.requeue(Task::new(self.tags, block, future));
        self.tags += 1;
    }

    /// Receives all futures that were sent through `interface`, and puts each on the
    /// queue as a new task.
    pub fn queue_all(&mut self, interface: &mut Interface<F>)
        requires
            old(self)@.tags + old(interface)@.sent.len() <= usize::MAX,
        ensures
            final(self)@ == old(self)@.queue_all(old(interface)@.sent),
            final(interface)@ == old(interface)@.receive_all(),
            final(self)@.tags == old(self)@.tags + old(interface)@.sent.len(),
            final(self)@.queue.len() == old(self)@.queue.len() + old(interface)@.sent.len(),
            final(interface)@.sent.len() == 0,
            final(interface)@.tasks == old(interface)@.tasks,
            final(interface)@.open == old(interface)@.open,
    {
        let ghost before = self@;
        let ghost sent = interface@.sent;
        let ghost mut received: int = 0;
        assert(self@.queue =~= before.queue_all(sent.take(0)).queue) by {
            reveal(Seq::filter);
        }
        loop
            invariant
                0 <= received <= sent.len(),
                before.tags + sent.len() <= usize::MAX,
                interface@.sent == sent.skip(received),
                interface@.tasks == old(interface)@.tasks,
                interface@.open == old(interface)@.open,
                self@ == before.queue_all(sent.take(received)),
                self@.queue.len() == before.queue.len() + received,
            ensures
                received == sent.len(),
                interface@.sent.len() == 0,
            decreases sent.len() - received,
        {
            match interface.try_recv() {
                Some(message) => {
                    let (block, future) = message;
                    proof {
                        let tasks = new_tasks(sent.take(received), before.tags);
                        let task = Arc::new(
                            Task { future, block, tag: (before.tags + received) as usize },
                        );
                        assert(new_tasks(sent.take(received + 1), before.tags) =~= tasks.push(
                            task,
                        ));
                        queue::requeued_all_push(before.queue, tasks, task);
                        received = received + 1;
                    }
                    self.queue_new(block, future);
                },
                None => {
                    break;
                },
            }
        }
        assert(sent.take(received) =~= sent);
        assert(interface@.sent =~= Seq::empty());
    }
}

} // verus!
