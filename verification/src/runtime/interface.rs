//! What users of a runtime see of it.
use crate::runtime::handle::give_up;
use crate::runtime::handle::let_go;
use crate::runtime::task::Blocking;
use std::collections::VecDeque;
use vstd::prelude::*;

verus! {

/// The means by which users hand futures to an executor and wait for it to be done.
///
/// Futures are sent along a channel, from which the executor receives them in the order
/// in which they were sent. Sending does not wait for the executor, so that a future may
/// send others while it is being polled. Beside the channel stands a count of the tasks on the runtime: each
/// future that is sent adds one, and each task that is dropped takes one away.
///
/// One value is shared by all users and the executor. It has no lock of its own, so
/// whoever shares it between threads puts it behind one.
#[derive(Debug)]
pub struct Interface<F> {
    /// How many tasks are on the runtime.
    tasks: usize,
    /// What was sent and not yet received, the oldest first.
    sent: VecDeque<(Blocking, F)>,
    /// Whether the executor still receives.
    open: bool,
}

/// What an [`Interface`] holds.
pub struct InterfaceState<F> {
    /// How many tasks are on the runtime.
    pub tasks: usize,
    /// What was sent and not yet received, the oldest first.
    pub sent: Seq<(Blocking, F)>,
    /// Whether the executor still receives.
    pub open: bool,
}

/// How many different values a count of tasks can have: when it is full, it starts again
/// at zero.
pub open spec fn count_range() -> int {
    usize::MAX + 1
}

/// The value that a count of tasks has when `count` is what it would be if it never
/// started again.
pub open spec fn wrapped(count: int) -> usize {
    (count % count_range()) as usize
}

/// Going past either end of its range by less than the range, a count starts again at the
/// other end.
pub proof fn wrapped_by_cases(count: int)
    ensures
        0 <= count < count_range() ==> wrapped(count) == count,
        count_range() <= count < 2 * count_range() ==> wrapped(count) == count - count_range(),
        -count_range() <= count < 0 ==> wrapped(count) == count + count_range(),
{
    let range = count_range();
    if 0 <= count < range {
        vstd::arithmetic::div_mod::lemma_small_mod(count as nat, range as nat);
    } else if range <= count < 2 * range {
        vstd::arithmetic::div_mod::lemma_mod_sub_multiples_vanish(count, range);
        vstd::arithmetic::div_mod::lemma_small_mod((count - range) as nat, range as nat);
    } else if -range <= count < 0 {
        vstd::arithmetic::div_mod::lemma_mod_add_multiples_vanish(count, range);
        vstd::arithmetic::div_mod::lemma_small_mod((count + range) as nat, range as nat);
    }
}

impl<F> InterfaceState<F> {
    /// The state after a future was sent. If nobody receives, sending fails and nothing
    /// changes.
    pub open spec fn send(self, block: Blocking, future: F) -> Self {
        if self.open {
            InterfaceState {
                tasks: wrapped(self.tasks + 1),
                sent: self.sent.push((block, future)),
                open: true,
            }
        } else {
            self
        }
    }

    /// The state after all that was sent has been received.
    pub open spec fn receive_all(self) -> Self {
        InterfaceState { tasks: self.tasks, sent: Seq::empty(), open: self.open }
    }

    /// The state after one task was dropped.
    pub open spec fn drop_task(self) -> Self {
        InterfaceState {
            tasks: wrapped(self.tasks - 1),
            sent: self.sent,
            open: self.open,
        }
    }

    /// The state after the executor has gone. What it had not received by then counts
    /// as never sent.
    pub open spec fn close(self) -> Self {
        InterfaceState {
            tasks: wrapped(self.tasks - self.sent.len()),
            sent: Seq::empty(),
            open: false,
        }
    }
}

impl<F> View for Interface<F> {
    type V = InterfaceState<F>;

    closed spec fn view(&self) -> InterfaceState<F> {
        InterfaceState { tasks: self.tasks, sent: self.sent@, open: self.open }
    }
}

impl<F> Interface<F> {
    /// The interface of an executor that has just been started: nothing was sent yet.
    pub fn new() -> (interface: Self)
        ensures
            interface@ == (InterfaceState::<F> { tasks: 0, sent: Seq::empty(), open: true }),
    {
        Interface { tasks: 0, sent: VecDeque::new(), open: true }
    }

    /// Spawns a future that takes turns with the others on the runtime. If nobody receives, the
    /// future is dropped.
    pub fn spawn(&mut self, future: F)
        ensures
            final(self)@ == old(self)@.send(Blocking::NonBlocking, future),
            final(self)@.open == old(self)@.open,
            old(self)@.open ==> {
                &&& final(self)@.sent == old(self)@.sent.push((Blocking::NonBlocking, future))
                &&& old(self)@.tasks < usize::MAX ==> final(self)@.tasks == old(self)@.tasks + 1
                &&& old(self)@.tasks == usize::MAX ==> final(self)@.tasks == 0
            },
            !old(self)@.open ==> final(self)@ == old(self)@ && call_ensures(
                let_go::<F>,
                (future,),
                (),
            ),
    {
        if self.open {
            self.sent.push_back((Blocking::NonBlocking, future));
            proof {
                wrapped_by_cases(self.tasks + 1);
            }
            self.tasks = self.tasks.wrapping_add(1);
        } else {
            give_up(future);
        }
    }

    /// Spawns a future that stops all others on the runtime until it completes. If nobody
    /// receives, the future is dropped.
    pub fn block_on(&mut self, future: F)
        ensures
            final(self)@ == old(self)@.send(Blocking::Blocking, future),
            final(self)@.open == old(self)@.open,
            old(self)@.open ==> {
                &&& final(self)@.sent == old(self)@.sent.push((Blocking::Blocking, future))
                &&& old(self)@.tasks < usize::MAX ==> final(self)@.tasks == old(self)@.tasks + 1
                &&& old(self)@.tasks == usize::MAX ==> final(self)@.tasks == 0
            },
            !old(self)@.open ==> final(self)@ == old(self)@ && call_ensures(
                let_go::<F>,
                (future,),
                (),
            ),
    {
        if self.open {
            self.sent.push_back((Blocking::Blocking, future));
            proof {
                wrapped_by_cases(self.tasks + 1);
            }
            self.tasks = self.tasks.wrapping_add(1);
        } else {
            give_up(future);
        }
    }

    /// Tells whether there is no task left to wait for. A user who wants to block until
    /// all tasks on the runtime are completed asks until the answer is `true`.
    pub fn wait(&self) -> (done: bool)
        ensures
            done == (self@.tasks == 0),
    {
        !(self.tasks > 0)
    }

    /// Whether a future that is sent now will be received.
    pub fn is_open(&self) -> (open: bool)
        ensures
            open == self@.open,
    {
        self.open
    }

    /// How many futures were sent and not yet received.
    pub fn sent_len(&self) -> (len: usize)
        ensures
            len == self@.sent.len(),
    {
        self.sent.len()
    }

    /// Receives the oldest of the futures that were sent, if there is any.
    pub(crate) fn try_recv(&mut self) -> (received: Option<(Blocking, F)>)
        ensures
            final(self)@.tasks == old(self)@.tasks,
            final(self)@.open == old(self)@.open,
            old(self)@.sent.len() == 0 ==> received is None && final(self)@.sent
                == old(self)@.sent,
            old(self)@.sent.len() > 0 ==> received == Some(old(self)@.sent.first())
                && final(self)@.sent == old(self)@.sent.drop_first(),
    {
        let received = self.sent.pop_front();
        if self.sent.len() == 0 {
            // A channel that has become empty holds on to no memory.
            self.sent = VecDeque::new();
            assert(self.sent@ =~= old(self).sent@.skip(if received is None { 0 } else { 1 }));
        }
        received
    }

    /// Takes one away from the count of tasks. To be called when a task goes out of
    /// scope, that is, when the last handle to it does.
    pub fn drop_task(&mut self)
        ensures
            final(self)@ == old(self)@.drop_task(),
            final(self)@.sent == old(self)@.sent,
            final(self)@.open == old(self)@.open,
            old(self)@.tasks > 0 ==> final(self)@.tasks == old(self)@.tasks - 1,
            old(self)@.tasks == 0 ==> final(self)@.tasks == usize::MAX,
    {
        proof {
            wrapped_by_cases(self.tasks - 1);
        }
        self.tasks = self.tasks.wrapping_sub(1);
    }

    /// Makes sending fail from now on. Returns what was sent and never received.
    pub(crate) fn close(&mut self) -> (lost: VecDeque<(Blocking, F)>)
        ensures
            lost@ == old(self)@.sent,
            final(self)@ == old(self)@.close(),
            final(self)@.sent.len() == 0,
            !final(self)@.open,
            old(self)@.tasks >= old(self)@.sent.len() ==> final(self)@.tasks == old(self)@.tasks
                - old(self)@.sent.len(),
            old(self)@.tasks < old(self)@.sent.len() ==> final(self)@.tasks == old(self)@.tasks
                + usize::MAX + 1 - old(self)@.sent.len(),
    {
        let mut lost: VecDeque<(Blocking, F)> = VecDeque::new();
        lost.append(&mut self.sent);
        proof {
            wrapped_by_cases(self.tasks - lost.len());
        }
        self.tasks = self.tasks.wrapping_sub(lost.len());
        self.open = false;
        lost
    }
}

} // verus!
