//! The executor: which task is polled next, and what becomes of it then.
use crate::futures::Poll;
use crate::runtime::handle::give_up;
use crate::runtime::handle::let_go;
use crate::runtime::interface::Interface;
use crate::runtime::interface::InterfaceState;
use crate::runtime::queue;
use crate::runtime::task::Blocking;
use crate::runtime::task::Task;
use crate::runtime::task::Waker;
use crate::runtime::Runtime;
use crate::runtime::RuntimeState;
use std::collections::VecDeque;
use std::sync::Arc;
use vstd::prelude::*;

verus! {

/// What drives tasks to completion.
///
/// It is run by a loop that alternates between [`next_task`](Executor::next_task), which
/// picks a task, polling that task, and [`finish_poll`](Executor::finish_poll), which takes
/// what the poll came to and says whether to poll the same task again.
#[derive(Debug)]
pub struct Executor<F> {
    /// The tasks that wait.
    runtime: Runtime<F>,
    /// The users' end.
    interface: Interface<F>,
    /// The task that is being polled.
    current: Option<Arc<Task<F>>>,
    /// The tag of the task that was being polled when the executor ended.
    abandoned: Option<usize>,
}

/// What an [`Executor`] holds.
pub struct ExecutorState<F> {
    /// The tasks that wait.
    pub runtime: RuntimeState<F>,
    /// What users have sent, and the count of tasks.
    pub interface: InterfaceState<F>,
    /// The task that is being polled.
    pub current: Option<Arc<Task<F>>>,
    /// The tag of the task that was being polled when the executor ended.
    pub abandoned: Option<usize>,
}

impl<F> ExecutorState<F> {
    /// Whether there are tags left for all the futures that were sent.
    pub open spec fn has_tags(self) -> bool {
        self.runtime.tags + self.interface.sent.len() <= usize::MAX
    }

    /// The state after a user has sent a future.
    pub open spec fn send(self, block: Blocking, future: F) -> Self {
        ExecutorState { interface: self.interface.send(block, future), ..self }
    }

    /// The state after a task was dropped.
    pub open spec fn drop_task(self) -> Self {
        ExecutorState { interface: self.interface.drop_task(), ..self }
    }

    /// The state after all futures that were sent have been put on the queue.
    pub open spec fn queue_all(self) -> Self {
        ExecutorState {
            runtime: self.runtime.queue_all(self.interface.sent),
            interface: self.interface.receive_all(),
            ..self
        }
    }

    /// Whether the executor has a handle to a task with the tag `tag`: it is being polled, or
    /// it waits.
    pub open spec fn holds(self, tag: usize) -> bool {
        ||| self.current matches Some(task) && task.tag == tag
        ||| queue::has_tag(self.runtime.queue, tag)
    }

    /// Whether a task with the tag `tag` was made and is not ready. The executor holds each
    /// such task, but for the one that was being polled when the executor ended.
    pub open spec fn is_unfinished(self, tag: usize) -> bool {
        self.holds(tag) || self.abandoned == Some(tag)
    }

    /// The number of futures that were sent so far, received or not.
    pub open spec fn last_number(self) -> int {
        self.runtime.tags + self.interface.sent.len()
    }

    /// Whether the executor has received as many futures as `number`, or never will.
    pub open spec fn is_settled(self, number: int) -> bool {
        self.runtime.tags >= number || !self.interface.open
    }

    /// The state after `task` was put on the queue again.
    pub open spec fn requeue(self, task: Arc<Task<F>>) -> Self {
        ExecutorState {
            runtime: RuntimeState {
                queue: queue::requeued(self.runtime.queue, task),
                tags: self.runtime.tags,
            },
            ..self
        }
    }

    /// The state after `task` was woken: it is put on the queue again, unless it is ready
    /// already.
    pub open spec fn wake(self, task: Arc<Task<F>>) -> Self {
        if self.is_unfinished(task.tag) {
            self.requeue(task)
        } else {
            self
        }
    }

    /// The state after the task at the front of the queue, if there is one, was taken off
    /// it to be polled.
    pub open spec fn dequeue(self) -> Self {
        if self.runtime.queue.len() == 0 {
            ExecutorState { current: None, ..self }
        } else {
            ExecutorState {
                runtime: RuntimeState {
                    queue: self.runtime.queue.drop_first(),
                    tags: self.runtime.tags,
                },
                current: Some(self.runtime.queue.first()),
                ..self
            }
        }
    }

    /// The state after a task was picked: first all that was sent is put on the queue, then
    /// the task at its front is taken.
    pub open spec fn next_task(self) -> Self {
        self.queue_all().dequeue()
    }

    /// Whether the task that is being polled has to be polled again at once when a poll of
    /// it comes to `outcome`.
    pub open spec fn polls_again(self, outcome: Poll) -> bool {
        outcome is Pending && self.current.unwrap().block is Blocking
    }

    /// The state after a poll of the current task came to `outcome`. A task that is ready
    /// leaves, and the queue forgets it even if it was woken while it was being polled. One that
    /// is pending stays the current task if it blocks, and what was sent in the meantime is put
    /// on the queue; if it does not block, it is put back on the queue.
    pub open spec fn finish_poll(self, outcome: Poll) -> Self {
        let task = self.current.unwrap();
        if outcome is Ready {
            ExecutorState {
                runtime: RuntimeState {
                    queue: queue::without(self.runtime.queue, task.tag),
                    tags: self.runtime.tags,
                },
                current: None,
                ..self
            }
        } else if task.block is Blocking {
            self.queue_all()
        } else {
            ExecutorState { current: None, ..self.requeue(task) }
        }
    }

    /// The state after the executor has ended. It polls nothing and receives nothing then.
    pub open spec fn end(self) -> Self {
        ExecutorState {
            interface: self.interface.close(),
            current: None,
            abandoned: match self.current {
                Some(task) => Some(task.tag),
                None => self.abandoned,
            },
            ..self
        }
    }
}

impl<F> View for Executor<F> {
    type V = ExecutorState<F>;

    closed spec fn view(&self) -> ExecutorState<F> {
        ExecutorState {
            runtime: self.runtime@,
            interface: self.interface@,
            current: self.current,
            abandoned: self.abandoned,
        }
    }
}

/// The state that an executor is started in: nothing was sent, nothing waits, and nothing
/// is being polled.
pub open spec fn started<F>() -> ExecutorState<F> {
    ExecutorState {
        runtime: RuntimeState { queue: Seq::empty(), tags: 0 },
        interface: InterfaceState { tasks: 0, sent: Seq::empty(), open: true },
        current: None,
        abandoned: None,
    }
}

/// Sets up a new executor, with a runtime and an interface of its own.
pub fn start<F>() -> (executor: Executor<F>)
    ensures
        executor@ == started::<F>(),
        executor@.runtime.queue.len() == 0,
        executor@.runtime.tags == 0,
        executor@.interface.tasks == 0,
        executor@.interface.sent.len() == 0,
        executor@.interface.open,
        executor@.current is None,
        executor@.abandoned is None,
{
    Executor {
        runtime: Runtime::new(),
        interface: Interface::new(),
        current: None,
        abandoned: None,
    }
}

impl<F> Executor<F> {
    /// The interface through which users send futures to this executor.
    pub fn interface(&mut self) -> (interface: &mut Interface<F>)
        ensures
            interface@ == old(self)@.interface,
            final(self)@ == (ExecutorState { interface: final(interface)@, ..old(self)@ }),
    {
        &mut self.interface
    }

    /// Whether a task is being polled.
    pub fn is_polling(&self) -> (polling: bool)
        ensures
            polling == (self@.current is Some),
    {
        self.current.is_some()
    }

    /// Whether there are tags left for all the futures that were sent.
    pub fn has_tags(&self) -> (enough: bool)
        ensures
            enough == self@.has_tags(),
            enough <==> self@.runtime.tags + self@.interface.sent.len() <= usize::MAX,
    {
        self.interface.sent_len() <= usize::MAX - self.runtime.tags()
    }

    /// How many futures were sent so far, received or not: the number of the one that was sent
    /// last.
    pub fn last_number(&self) -> (number: usize)
        requires
            self@.has_tags(),
        ensures
            number == self@.last_number(),
            number == self@.runtime.tags + self@.interface.sent.len(),
    {
        self.runtime.tags() + self.interface.sent_len()
    }

    /// Whether the executor has received as many futures as `number`, or never will.
    pub fn is_settled(&self, number: usize) -> (settled: bool)
        ensures
            settled == self@.is_settled(number as int),
            self@.runtime.tags >= number ==> settled,
            !self@.interface.open ==> settled,
            settled ==> self@.runtime.tags >= number || !self@.interface.open,
    {
        self.runtime.tags() >= number || !self.interface.is_open()
    }

    /// Wakes the task of this executor that `waker` stands for: puts it back on the queue, where
    /// one that waits already then stands twice. A task that is ready is not queued again; the
    /// waker is dropped then. All tasks that wait keep their places.
    pub fn wake(&mut self, waker: Waker<F>)
        ensures
            final(self)@ == old(self)@.wake(waker.task),
            !old(self)@.is_unfinished(waker.task.tag) ==> final(self)@ == old(self)@,
            !old(self)@.is_unfinished(waker.task.tag) ==> call_ensures(
                let_go::<Waker<F>>,
                (waker,),
                (),
            ),
            old(self)@.is_unfinished(waker.task.tag) ==> {
                &&& waker.task.block is Blocking ==> final(self)@.runtime.queue
                    == seq![waker.task] + old(self)@.runtime.queue
                &&& waker.task.block is NonBlocking ==> final(self)@.runtime.queue
                    == old(self)@.runtime.queue.push(waker.task)
            },
            final(self)@.runtime.tags == old(self)@.runtime.tags,
            final(self)@.interface == old(self)@.interface,
            final(self)@.current == old(self)@.current,
            final(self)@.abandoned == old(self)@.abandoned,
    {
        let tag: usize = waker.task.tag;
        let current: bool = match &self.current {
            None => false,
            Some(task) => task.tag == tag,
        };
        let abandoned: bool = match self.abandoned {
            None => false,
            Some(other) => other == tag,
        };
        if current || abandoned || self.runtime.queue.contains(tag) {
            waker.task.wake(&mut self.runtime.queue);
        } else {
            give_up(waker);
        }
    }

    /// Puts what was sent on the queue, and takes the task at the front of the queue off it
    /// to be polled. There is none if and only if nothing waits and nothing was sent.
    pub fn next_task(&mut self) -> (task: Option<Arc<Task<F>>>)
        requires
            old(self)@.interface.open,
            old(self)@.current is None,
            old(self)@.has_tags(),
        ensures
            final(self)@ == old(self)@.next_task(),
            task == final(self)@.current,
            task is None <==> old(self)@.runtime.queue.len() == 0
                && old(self)@.interface.sent.len() == 0,
            task is None ==> final(self)@.runtime.queue.len() == 0,
            task is Some ==> final(self)@.runtime.queue.len() + 1 == old(self)@.runtime.queue.len()
                + old(self)@.interface.sent.len(),
            final(self)@.runtime.tags == old(self)@.runtime.tags + old(self)@.interface.sent.len(),
            final(self)@.interface.sent.len() == 0,
            final(self)@.interface.tasks == old(self)@.interface.tasks,
            final(self)@.interface.open,
            final(self)@.abandoned == old(self)@.abandoned,
    {
        self.runtime.queue_all(&mut self.interface);
        let task = self.runtime.queue.dequeue();
        self.current = match &task {
            None => None,
            Some(task) => Some(task.clone()),
        };
        task
    }

    /// Takes what a poll of the current task came to. Returns whether that task has to be
    /// polled again at once: it is pending, and all others have to wait for it. A task that is
    /// ready is finished: it does not wait any more, and the executor lets go of each handle that
    /// it had to it.
    pub fn finish_poll(&mut self, outcome: Poll) -> (again: bool)
        requires
            old(self)@.current is Some,
            old(self)@.polls_again(outcome) ==> old(self)@.has_tags(),
        ensures
            final(self)@ == old(self)@.finish_poll(outcome),
            again == old(self)@.polls_again(outcome),
            outcome is Ready ==> !final(self)@.holds(old(self)@.current.unwrap().tag),
            again <==> outcome is Pending && old(self)@.current.unwrap().block is Blocking,
            outcome is Ready ==> {
                &&& call_ensures(let_go::<Arc<Task<F>>>, (old(self)@.current.unwrap(),), ())
                &&& forall|i: int|
                    0 <= i < old(self)@.runtime.queue.len()
                        && (#[trigger] old(self)@.runtime.queue[i]).tag
                        == old(self)@.current.unwrap().tag ==> call_ensures(
                        let_go::<Arc<Task<F>>>,
                        (old(self)@.runtime.queue[i],),
                        (),
                    )
                &&& final(self)@.runtime.queue == old(self)@.runtime.queue.filter(
                    |task: Arc<Task<F>>| task.tag != old(self)@.current.unwrap().tag,
                )
                &&& final(self)@.current is None
            },
            outcome is Pending && !again ==> {
                &&& final(self)@.runtime.queue == old(self)@.runtime.queue.push(
                    old(self)@.current.unwrap(),
                )
                &&& final(self)@.current is None
            },
            again ==> {
                &&& final(self)@.current == old(self)@.current
                &&& final(self)@.runtime.tags == old(self)@.runtime.tags
                    + old(self)@.interface.sent.len()
                &&& final(self)@.runtime.queue.len() == old(self)@.runtime.queue.len()
                    + old(self)@.interface.sent.len()
                &&& final(self)@.interface.sent.len() == 0
                &&& final(self)@.interface.tasks == old(self)@.interface.tasks
                &&& final(self)@.interface.open == old(self)@.interface.open
            },
            !again ==> {
                &&& final(self)@.runtime.tags == old(self)@.runtime.tags
                &&& final(self)@.interface == old(self)@.interface
            },
            final(self)@.abandoned == old(self)@.abandoned,
    {
        match self.current.take() {
            None => false,
            Some(task) => {
                match outcome {
                    Poll::Ready => {
                        proof {
                            queue::without_tag(self.runtime.queue@, task.tag);
                        }
                        self.runtime.queue.forget(task.tag);
                        give_up(task);
                        false
                    },
                    Poll::Pending => {
                        if task.will_block() {
                            self.runtime.queue_all(&mut self.interface);
                            self.current = Some(task);
                            true
                        } else {
                            task.wake(&mut self.runtime.queue);
                            false
                        }
                    },
                }
            },
        }
    }

    /// To be called when nobody runs the executor any more, be it in the middle of a poll.
    /// Sending futures to it fails from then on. Returns the task that was being polled, and
    /// what was sent and never received.
    pub fn end(&mut self) -> (left: (Option<Arc<Task<F>>>, VecDeque<(Blocking, F)>))
        ensures
            left.0 == old(self)@.current,
            left.1@ == old(self)@.interface.sent,
            final(self)@ == old(self)@.end(),
            final(self)@.runtime == old(self)@.runtime,
            final(self)@.current is None,
            old(self)@.current matches Some(task) ==> final(self)@.abandoned == Some(task.tag),
            old(self)@.current is None ==> final(self)@.abandoned == old(self)@.abandoned,
            final(self)@.interface.sent.len() == 0,
            !final(self)@.interface.open,
            old(self)@.interface.tasks >= old(self)@.interface.sent.len()
                ==> final(self)@.interface.tasks == old(self)@.interface.tasks
                - old(self)@.interface.sent.len(),
            old(self)@.interface.tasks < old(self)@.interface.sent.len()
                ==> final(self)@.interface.tasks == old(self)@.interface.tasks + usize::MAX + 1
                - old(self)@.interface.sent.len(),
    {
        let polled = self.current.take();
        match &polled {
            None => {},
            Some(task) => {
                self.abandoned = Some(task.tag);
            },
        }
        (polled, self.interface.close())
    }
}

} // verus!
