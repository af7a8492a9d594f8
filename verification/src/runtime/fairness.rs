//! Which task comes next, and that every task gets its turn.
use crate::futures::Poll;
use crate::runtime::executor::ExecutorState;
use crate::runtime::history::handles;
use crate::runtime::new_tasks;
use crate::runtime::order::requeue_all_keeps_tags;
use crate::runtime::queue::has_tag;
use crate::runtime::queue::requeued_all;
use crate::runtime::queue::requeued_all_push;
use crate::runtime::queue::without;
use crate::runtime::queue::without_tag;
use crate::runtime::task::Blocking;
use crate::runtime::task::Task;
use std::sync::Arc;
use vstd::prelude::*;

verus! {

/// Of the futures that users want the runtime to block on, the last one that was sent is
/// polled next, before all tasks that wait and all futures that were spawned.
pub proof fn last_block_on_is_next<F>(executor: ExecutorState<F>, i: int)
    requires
        0 <= i < executor.interface.sent.len(),
        executor.interface.sent[i].0 is Blocking,
        forall|j: int|
            i < j < executor.interface.sent.len() ==> (#[trigger] executor.interface.sent[j]).0
                is NonBlocking,
    ensures
        executor.next_task().current == Some(
            new_tasks(executor.interface.sent, executor.runtime.tags)[i],
        ),
{
    let fresh = new_tasks(executor.interface.sent, executor.runtime.tags);
    assert forall|j: int| i < j < fresh.len() implies (#[trigger] fresh[j]).block is NonBlocking by {
        assert(executor.interface.sent[j].0 is NonBlocking);
    }
    lemma_last_blocking_first(executor.runtime.queue, fresh, i);
}

/// The last of the arrivals that block ends up at the front of the queue.
proof fn lemma_last_blocking_first<F>(
    tasks: Seq<Arc<Task<F>>>,
    arrivals: Seq<Arc<Task<F>>>,
    i: int,
)
    requires
        0 <= i < arrivals.len(),
        arrivals[i].block is Blocking,
        forall|j: int| i < j < arrivals.len() ==> (#[trigger] arrivals[j]).block is NonBlocking,
    ensures
        requeued_all(tasks, arrivals).len() > 0,
        requeued_all(tasks, arrivals).first() == arrivals[i],
    decreases arrivals.len(),
{
    let earlier = arrivals.drop_last();
    let last = arrivals.last();
    assert(arrivals =~= earlier.push(last));
    requeued_all_push(tasks, earlier, last);
    if i < arrivals.len() - 1 {
        assert(arrivals[arrivals.len() - 1].block is NonBlocking);
        assert forall|j: int| i < j < earlier.len() implies (#[trigger] earlier[j]).block
            is NonBlocking by {
            assert(earlier[j] == arrivals[j]);
        }
        lemma_last_blocking_first(tasks, earlier, i);
    }
}

/// If users have only spawned futures, they wait behind the tasks on the queue in the order
/// in which they were sent.
pub proof fn spawned_futures_wait_in_order<F>(executor: ExecutorState<F>)
    requires
        forall|j: int|
            0 <= j < executor.interface.sent.len() ==> (#[trigger] executor.interface.sent[j]).0
                is NonBlocking,
    ensures
        executor.queue_all().runtime.queue == executor.runtime.queue + new_tasks(
            executor.interface.sent,
            executor.runtime.tags,
        ),
{
    let fresh = new_tasks(executor.interface.sent, executor.runtime.tags);
    assert forall|j: int| 0 <= j < fresh.len() implies (#[trigger] fresh[j]).block is NonBlocking by {
        assert(executor.interface.sent[j].0 is NonBlocking);
    }
    lemma_nonblocking_append(executor.runtime.queue, fresh);
}

/// Arrivals none of which blocks go to the end of the queue as they are.
proof fn lemma_nonblocking_append<F>(tasks: Seq<Arc<Task<F>>>, arrivals: Seq<Arc<Task<F>>>)
    requires
        forall|j: int| 0 <= j < arrivals.len() ==> (#[trigger] arrivals[j]).block is NonBlocking,
    ensures
        requeued_all(tasks, arrivals) == tasks + arrivals,
    decreases arrivals.len(),
{
    reveal(Seq::filter);
    if arrivals.len() == 0 {
        assert(requeued_all(tasks, arrivals) =~= tasks + arrivals);
    } else {
        let earlier = arrivals.drop_last();
        let last = arrivals.last();
        assert(arrivals =~= earlier.push(last));
        requeued_all_push(tasks, earlier, last);
        assert forall|j: int| 0 <= j < earlier.len() implies (#[trigger] earlier[j]).block
            is NonBlocking by {
            assert(earlier[j] == arrivals[j]);
        }
        lemma_nonblocking_append(tasks, earlier);
        assert(arrivals[arrivals.len() - 1].block is NonBlocking);
        assert((tasks + earlier).push(last) =~= tasks + arrivals);
    }
}

/// An executor finds no task to poll if and only if none waits and nothing was sent. Looking
/// for one then changes nothing.
pub proof fn idle_only_if_nothing_is_left<F>(executor: ExecutorState<F>)
    requires
        executor.current is None,
    ensures
        executor.next_task().current is None <==> executor.runtime.queue.len() == 0
            && executor.interface.sent.len() == 0,
        executor.next_task().current is None ==> executor.next_task() == executor,
{
    let sent = executor.interface.sent;
    let fresh = new_tasks(sent, executor.runtime.tags);
    lemma_requeued_all_len(executor.runtime.queue, fresh);
    if executor.runtime.queue.len() == 0 && sent.len() == 0 {
        assert(executor.next_task().runtime.queue =~= executor.runtime.queue);
        assert(executor.interface.sent =~= Seq::empty());
    }
}

/// The queue is longer by as many tasks as have arrived.
proof fn lemma_requeued_all_len<F>(tasks: Seq<Arc<Task<F>>>, arrivals: Seq<Arc<Task<F>>>)
    ensures
        requeued_all(tasks, arrivals).len() == tasks.len() + arrivals.len(),
    decreases arrivals.len(),
{
    reveal(Seq::filter);
    if arrivals.len() > 0 {
        let earlier = arrivals.drop_last();
        assert(arrivals =~= earlier.push(arrivals.last()));
        requeued_all_push(tasks, earlier, arrivals.last());
        lemma_requeued_all_len(tasks, earlier);
    }
}

impl<F> ExecutorState<F> {
    /// The state after the executor has picked a task and a poll of it came to `outcome`.
    pub open spec fn turn(self, outcome: Poll) -> Self {
        self.next_task().finish_poll(outcome)
    }

    /// The state after as many turns as there are outcomes.
    pub open spec fn turns(self, outcomes: Seq<Poll>) -> Self
        decreases outcomes.len(),
    {
        if outcomes.len() == 0 {
            self
        } else {
            self.turns(outcomes.drop_last()).turn(outcomes.last())
        }
    }
}

/// Those of `tasks` whose poll was pending, in the same order. The outcome of the poll of each
/// stands at the same place in `outcomes`.
pub open spec fn still_pending<F>(tasks: Seq<Arc<Task<F>>>, outcomes: Seq<Poll>) -> Seq<
    Arc<Task<F>>,
>
    recommends
        tasks.len() == outcomes.len(),
    decreases outcomes.len(),
{
    if outcomes.len() == 0 {
        Seq::empty()
    } else {
        let earlier = still_pending(tasks.drop_last(), outcomes.drop_last());
        if outcomes.last() is Pending {
            earlier.push(tasks.last())
        } else {
            earlier
        }
    }
}

/// Whether no two of `tasks` have the same tag. That is so of all handles of an executor as long
/// as nobody has woken a task.
pub open spec fn distinct_tags<F>(tasks: Seq<Arc<Task<F>>>) -> bool {
    forall|i: int, j: int|
        0 <= i < j < tasks.len() ==> (#[trigger] tasks[i]).tag != (#[trigger] tasks[j]).tag
}

/// Tasks that were pending are among those that were polled.
proof fn lemma_still_pending_polled<F>(tasks: Seq<Arc<Task<F>>>, outcomes: Seq<Poll>)
    requires
        tasks.len() == outcomes.len(),
    ensures
        forall|i: int|
            0 <= i < still_pending(tasks, outcomes).len() ==> tasks.contains(
                #[trigger] still_pending(tasks, outcomes)[i],
            ),
    decreases outcomes.len(),
{
    if outcomes.len() > 0 {
        let earlier = still_pending(tasks.drop_last(), outcomes.drop_last());
        lemma_still_pending_polled(tasks.drop_last(), outcomes.drop_last());
        assert forall|i: int| 0 <= i < still_pending(tasks, outcomes).len() implies tasks.contains(
            #[trigger] still_pending(tasks, outcomes)[i],
        ) by {
            if i < earlier.len() {
                assert(tasks.drop_last().contains(earlier[i]));
                let j = tasks.drop_last().index_of(earlier[i]);
                assert(tasks[j] == earlier[i]);
            } else {
                assert(tasks[tasks.len() - 1] == tasks.last());
            }
        }
    }
}

/// A task on a queue without duplicates stands neither among those after it nor among those
/// before it that are still pending.
proof fn lemma_polled_once<F>(queue: Seq<Arc<Task<F>>>, polled: int, outcomes: Seq<Poll>)
    requires
        distinct_tags(queue),
        0 < polled <= queue.len(),
        outcomes.len() == polled - 1,
    ensures
        !has_tag(
            queue.skip(polled) + still_pending(queue.take(polled - 1), outcomes),
            queue[polled - 1].tag,
        ),
{
    let kept = still_pending(queue.take(polled - 1), outcomes);
    let others = queue.skip(polled) + kept;
    lemma_still_pending_polled(queue.take(polled - 1), outcomes);
    assert forall|i: int| 0 <= i < others.len() implies (#[trigger] others[i]).tag != queue[polled
        - 1].tag by {
        if i < queue.len() - polled {
            assert(others[i] == queue[i + polled]);
        } else {
            let other = kept[i - (queue.len() - polled)];
            assert(queue.take(polled - 1).contains(other));
            let j = queue.take(polled - 1).index_of(other);
            assert(queue[j] == other);
        }
    }
}

/// Tasks that do not block take turns: as long as nothing new arrives and no task stands on the
/// queue twice, the tasks on the queue are polled one after the other, each once before any is polled again. Those that are ready
/// leave, and the others line up again in the same order.
pub proof fn tasks_take_turns<F>(executor: ExecutorState<F>, outcomes: Seq<Poll>)
    requires
        executor.current is None,
        executor.interface.sent.len() == 0,
        forall|i: int|
            0 <= i < executor.runtime.queue.len() ==> (#[trigger] executor.runtime.queue[i]).block
                is NonBlocking,
        distinct_tags(executor.runtime.queue),
        outcomes.len() <= executor.runtime.queue.len(),
    ensures
        ({
            let queue = executor.runtime.queue;
            let polled = outcomes.len() as int;
            let later = executor.turns(outcomes);
            &&& later.current is None
            &&& later.interface == executor.interface
            &&& later.runtime.tags == executor.runtime.tags
            &&& later.runtime.queue == queue.skip(polled) + still_pending(
                queue.take(polled),
                outcomes,
            )
            &&& polled < queue.len() ==> later.next_task().current == Some(queue[polled])
        }),
    decreases outcomes.len(),
{
    let queue = executor.runtime.queue;
    let polled = outcomes.len() as int;
    let later = executor.turns(outcomes);
    if outcomes.len() == 0 {
        assert(queue.skip(0) + still_pending(queue.take(0), outcomes) =~= queue);
    } else {
        let earlier = executor.turns(outcomes.drop_last());
        tasks_take_turns(executor, outcomes.drop_last());
        lemma_nothing_sent(earlier);
        let task = queue[polled - 1];
        assert(task.block is NonBlocking);
        let kept = still_pending(queue.take(polled - 1), outcomes.drop_last());
        assert(earlier.runtime.queue =~= queue.skip(polled - 1) + kept);
        assert(earlier.runtime.queue.drop_first() =~= queue.skip(polled) + kept);
        assert(queue.take(polled).drop_last() =~= queue.take(polled - 1));
        assert(queue.take(polled).last() == task);
        lemma_polled_once(queue, polled, outcomes.drop_last());
        without_tag(queue.skip(polled) + kept, task.tag);
        assert(later.runtime.queue =~= queue.skip(polled) + still_pending(
            queue.take(polled),
            outcomes,
        ));
    }
    lemma_nothing_sent(later);
}

/// When nothing was sent, receiving changes nothing.
proof fn lemma_nothing_sent<F>(executor: ExecutorState<F>)
    requires
        executor.interface.sent.len() == 0,
    ensures
        executor.queue_all() == executor,
{
    reveal(Seq::filter);
    assert(executor.interface.sent =~= Seq::empty());
    assert(executor.queue_all().runtime.queue =~= executor.runtime.queue);
}

/// An executor, together with what its futures will do: how often each has to be polled, and
/// what each sends while it is being polled. Futures are given by their numbers, which are the
/// tags of the tasks made of them.
pub struct Workload<F> {
    /// The state of the executor.
    pub executor: ExecutorState<F>,
    /// How many polls are left, for each future. It is ready at the last of these polls and
    /// pending at those before.
    pub polls: Map<int, nat>,
    /// What a future sends at a poll, by how many polls are left then.
    pub sends: spec_fn(int, nat) -> Seq<(Blocking, F)>,
    /// How many futures are sent all together, from the start of the executor on.
    pub total: int,
}

/// How many polls the first `count` futures need all together.
pub open spec fn total_polls(polls: Map<int, nat>, count: int) -> nat
    decreases count,
{
    if count <= 0 {
        0
    } else {
        total_polls(polls, count - 1) + polls[count - 1]
    }
}

/// How many futures a future sends at the last `left` of its polls.
pub open spec fn sends_of<F>(
    sends: spec_fn(int, nat) -> Seq<(Blocking, F)>,
    tag: int,
    left: nat,
) -> nat
    decreases left,
{
    if left == 0 {
        0
    } else {
        sends_of(sends, tag, (left - 1) as nat) + sends(tag, left).len()
    }
}

/// How many futures the first `count` futures are still to send all together.
pub open spec fn total_sends<F>(
    sends: spec_fn(int, nat) -> Seq<(Blocking, F)>,
    polls: Map<int, nat>,
    count: int,
) -> nat
    decreases count,
{
    if count <= 0 {
        0
    } else {
        total_sends(sends, polls, count - 1) + sends_of(sends, count - 1, polls[count - 1])
    }
}

impl<F> ExecutorState<F> {
    /// The state after all of `futures` were sent, the first one first.
    pub open spec fn send_all(self, futures: Seq<(Blocking, F)>) -> Self
        decreases futures.len(),
    {
        if futures.len() == 0 {
            self
        } else {
            self.send_all(futures.drop_last()).send(futures.last().0, futures.last().1)
        }
    }
}

impl<F> Workload<F> {
    /// Whether there is nothing left to poll.
    pub open spec fn is_done(self) -> bool {
        handles(self.executor).len() == 0 && self.executor.interface.sent.len() == 0
    }

    /// Whether this describes finitely much work for an executor that runs: what was sent and
    /// what is still to be sent is no more than the total, and each future that is not ready
    /// needs at least one poll.
    pub open spec fn is_sound(self) -> bool {
        &&& self.executor.interface.open
        &&& self.total <= usize::MAX
        &&& self.executor.last_number() + total_sends(self.sends, self.polls, self.total)
            <= self.total
        &&& forall|tag: int|
            self.executor.runtime.tags <= tag < self.total ==> #[trigger] self.polls[tag] >= 1
        &&& self.all_need_polls(handles(self.executor))
    }

    /// Whether each of `tasks` has a tag that was given out and needs at least one poll.
    pub open spec fn all_need_polls(self, tasks: Seq<Arc<Task<F>>>) -> bool {
        forall|i: int|
            0 <= i < tasks.len() ==> (#[trigger] tasks[i]).tag < self.executor.runtime.tags
                && self.polls[tasks[i].tag as int] >= 1
    }

    /// How many steps are enough until all tasks are ready.
    pub open spec fn steps_left(self) -> nat {
        2 * total_polls(self.polls, self.total) + if self.executor.current is None {
            1nat
        } else {
            0
        }
    }

    /// What comes of one step: an executor that polls no task picks one. One that polls a task
    /// gets what the task sends at this poll, and learns what the poll came to.
    pub open spec fn step(self) -> Self {
        match self.executor.current {
            None => Workload { executor: self.executor.next_task(), ..self },
            Some(task) => {
                let tag = task.tag as int;
                let left = self.polls[tag];
                let outcome = if left <= 1 {
                    Poll::Ready
                } else {
                    Poll::Pending
                };
                Workload {
                    executor: self.executor.send_all((self.sends)(tag, left)).finish_poll(outcome),
                    polls: self.polls.insert(tag, (left - 1) as nat),
                    ..self
                }
            },
        }
    }

    /// What comes of `count` steps.
    pub open spec fn steps(self, count: nat) -> Self
        decreases count,
    {
        if count == 0 {
            self
        } else {
            self.step().steps((count - 1) as nat)
        }
    }
}

/// Sending to an executor that runs changes nothing but what is to be received and the count.
proof fn lemma_send_all<F>(executor: ExecutorState<F>, futures: Seq<(Blocking, F)>)
    requires
        executor.interface.open,
    ensures
        executor.send_all(futures).interface.open,
        executor.send_all(futures).interface.sent == executor.interface.sent + futures,
        executor.send_all(futures).runtime == executor.runtime,
        executor.send_all(futures).current == executor.current,
    decreases futures.len(),
{
    if futures.len() == 0 {
        assert(executor.interface.sent + futures =~= executor.interface.sent);
    } else {
        let earlier = futures.drop_last();
        lemma_send_all(executor, earlier);
        assert((executor.interface.sent + earlier).push((futures.last().0, futures.last().1))
            =~= executor.interface.sent + futures);
    }
}

/// A poll that is over is not needed any more, and what it has sent is not to be sent any more.
proof fn lemma_one_poll_less<F>(
    sends: spec_fn(int, nat) -> Seq<(Blocking, F)>,
    polls: Map<int, nat>,
    tag: int,
    count: int,
)
    requires
        0 <= tag,
        polls[tag] >= 1,
    ensures
        ({
            let fewer = polls.insert(tag, (polls[tag] - 1) as nat);
            if tag < count {
                &&& total_polls(fewer, count) == total_polls(polls, count) - 1
                &&& total_sends(sends, fewer, count) == total_sends(sends, polls, count) - sends(
                    tag,
                    polls[tag],
                ).len()
            } else {
                &&& total_polls(fewer, count) == total_polls(polls, count)
                &&& total_sends(sends, fewer, count) == total_sends(sends, polls, count)
            }
        }),
    decreases count,
{
    if count > 0 {
        lemma_one_poll_less(sends, polls, tag, count - 1);
    }
}

/// New tasks need polls if what they are made of does, and so do all on the queue then.
proof fn lemma_arrivals_need_polls<F>(work: Workload<F>, later: Workload<F>)
    requires
        work.executor.has_tags(),
        later.executor.runtime.tags == work.executor.runtime.tags
            + work.executor.interface.sent.len(),
        work.all_need_polls(work.executor.runtime.queue),
        later.polls == work.polls,
        forall|tag: int|
            work.executor.runtime.tags <= tag < later.executor.runtime.tags
                ==> #[trigger] work.polls[tag] >= 1,
    ensures
        later.all_need_polls(work.executor.queue_all().runtime.queue),
{
    let queue = work.executor.runtime.queue;
    let fresh = new_tasks(work.executor.interface.sent, work.executor.runtime.tags);
    let all = requeued_all(queue, fresh);
    assert forall|i: int| 0 <= i < all.len() implies (#[trigger] all[i]).tag
        < later.executor.runtime.tags && later.polls[all[i].tag as int] >= 1 by {
        let tag = all[i].tag;
        requeue_all_keeps_tags(queue, fresh, tag);
        assert(has_tag(all, tag));
        if has_tag(queue, tag) {
            let j = choose|j: int| 0 <= j < queue.len() && (#[trigger] queue[j]).tag == tag;
            assert(work.polls[queue[j].tag as int] >= 1);
        } else {
            let j = choose|j: int| 0 <= j < fresh.len() && (#[trigger] fresh[j]).tag == tag;
            assert(fresh[j].tag == work.executor.runtime.tags + j);
            assert(work.polls[tag as int] >= 1);
        }
    }
}

/// Each step brings an executor that is not done closer to being done.
proof fn lemma_step_makes_progress<F>(work: Workload<F>)
    requires
        work.is_sound(),
        !work.is_done(),
    ensures
        work.step().is_sound(),
        work.step().steps_left() < work.steps_left(),
{
    let executor = work.executor;
    let later = work.step();
    let queue = executor.runtime.queue;
    match executor.current {
        None => {
            let queued = Workload { executor: executor.queue_all(), ..work };
            lemma_requeued_all_len(queue, new_tasks(executor.interface.sent, executor.runtime.tags));
            lemma_arrivals_need_polls(work, queued);
            assert(handles(later.executor) =~= queued.executor.runtime.queue);
        },
        Some(task) => {
            let tag = task.tag as int;
            let left = work.polls[tag];
            let sending = Workload {
                executor: executor.send_all((work.sends)(tag, left)),
                polls: later.polls,
                ..work
            };
            assert(handles(executor)[0] == task);
            lemma_send_all(executor, (work.sends)(tag, left));
            lemma_one_poll_less(work.sends, work.polls, tag, work.total);
            if left > 1 {
                assert forall|i: int| 0 <= i < queue.len() implies (#[trigger] queue[i]).tag
                    < executor.runtime.tags && later.polls[queue[i].tag as int] >= 1 by {
                    assert(handles(executor)[i + 1] == queue[i]);
                }
                if task.block is Blocking {
                    lemma_arrivals_need_polls(sending, later);
                    let all = later.executor.runtime.queue;
                    assert forall|i: int| 0 <= i < handles(later.executor).len() implies (
                    #[trigger] handles(later.executor)[i]).tag < later.executor.runtime.tags
                        && later.polls[handles(later.executor)[i].tag as int] >= 1 by {
                        if i > 0 {
                            assert(handles(later.executor)[i] == all[i - 1]);
                        }
                    }
                } else {
                    assert forall|i: int| 0 <= i < handles(later.executor).len() implies (
                    #[trigger] handles(later.executor)[i]).tag < later.executor.runtime.tags
                        && later.polls[handles(later.executor)[i].tag as int] >= 1 by {
                        if i < queue.len() {
                            assert(handles(later.executor)[i] == queue[i]);
                        }
                    }
                }
            } else {
                without_tag(queue, task.tag);
                let all = without(queue, task.tag);
                assert forall|i: int| 0 <= i < all.len() implies (#[trigger] all[i]).tag
                    < executor.runtime.tags && later.polls[all[i].tag as int] >= 1 by {
                    assert(queue.contains(all[i]));
                    let j = queue.index_of(all[i]);
                    assert(handles(executor)[j + 1] == queue[j]);
                    assert(all[i].tag != task.tag) by {
                        assert(!has_tag(all, task.tag));
                    }
                }
            }
        },
    }
}

/// Every task completes: if each future needs only so many polls, sends only so many others while
/// it is being polled, and so do those, and if nobody wakes a task, then after finitely many steps
/// all tasks, those that wait and those made of all that is sent in the meantime, have been polled
/// until they were ready, and nothing is left.
pub proof fn all_tasks_complete<F>(work: Workload<F>, count: nat)
    requires
        work.is_sound(),
        count >= work.steps_left(),
    ensures
        work.steps(count).is_done(),
    decreases count,
{
    if work.is_done() {
        lemma_done_stays_done(work, count);
    } else {
        lemma_step_makes_progress(work);
        all_tasks_complete(work.step(), (count - 1) as nat);
    }
}

/// An executor that is done stays done.
proof fn lemma_done_stays_done<F>(work: Workload<F>, count: nat)
    requires
        work.is_done(),
    ensures
        work.steps(count).is_done(),
    decreases count,
{
    if count > 0 {
        lemma_nothing_sent(work.executor);
        lemma_done_stays_done(work.step(), (count - 1) as nat);
    }
}

} // verus!
