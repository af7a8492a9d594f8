//! What each step of an executor does to what it holds.
use crate::futures::Poll;
use crate::runtime::executor::started;
use crate::runtime::executor::ExecutorState;
use crate::runtime::history::lemma_wrapped_shift;
use crate::runtime::interface::wrapped_by_cases;
use crate::runtime::interface::InterfaceState;
use crate::runtime::new_tasks;
use crate::runtime::queue::requeued_all_push;
use crate::runtime::task::Blocking;
use crate::runtime::task::Task;
use crate::runtime::RuntimeState;
use std::sync::Arc;
use vstd::prelude::*;

verus! {

/// A future that is sent stands behind all that was sent before, and counts as one task more. If
/// nobody receives, nothing changes.
pub proof fn sending_adds_one<F>(interface: InterfaceState<F>, block: Blocking, future: F)
    ensures
        interface.open ==> {
            &&& interface.send(block, future).sent == interface.sent.push((block, future))
            &&& interface.send(block, future).open
            &&& interface.tasks < usize::MAX ==> interface.send(block, future).tasks
                == interface.tasks + 1
            &&& interface.tasks == usize::MAX ==> interface.send(block, future).tasks == 0
        },
        !interface.open ==> interface.send(block, future) == interface,
{
    wrapped_by_cases(interface.tasks + 1);
}

/// A task that is dropped counts no more, and nothing else changes.
pub proof fn dropping_takes_one_away<F>(interface: InterfaceState<F>)
    ensures
        interface.tasks > 0 ==> interface.drop_task().tasks == interface.tasks - 1,
        interface.tasks == 0 ==> interface.drop_task().tasks == usize::MAX,
        interface.drop_task().sent == interface.sent,
        interface.drop_task().open == interface.open,
{
    wrapped_by_cases(interface.tasks - 1);
}

/// To drop a task takes back what sending its future has added to the count.
pub proof fn dropping_undoes_sending<F>(interface: InterfaceState<F>, block: Blocking, future: F)
    requires
        interface.open,
    ensures
        interface.send(block, future).drop_task().tasks == interface.tasks,
{
    sending_adds_one(interface, block, future);
    dropping_takes_one_away(interface.send(block, future));
}

/// Receiving empties the channel, and nothing else changes.
pub proof fn receiving_empties_the_channel<F>(interface: InterfaceState<F>)
    ensures
        interface.receive_all().sent.len() == 0,
        interface.receive_all().tasks == interface.tasks,
        interface.receive_all().open == interface.open,
{
}

/// Once the executor has gone, nobody receives, nothing is in the channel, and what was in it
/// counts no more: it is as if it had never been sent.
pub proof fn closing_takes_back_what_was_sent<F>(
    interface: InterfaceState<F>,
    block: Blocking,
    future: F,
)
    ensures
        !interface.close().open,
        interface.close().sent.len() == 0,
        interface.sent.len() == 0 ==> interface.close().tasks == interface.tasks,
        interface.sent.len() <= interface.tasks ==> interface.close().tasks == interface.tasks
            - interface.sent.len(),
        interface.send(block, future).close() == interface.close(),
{
    let count = interface.tasks as int;
    let sent = interface.sent.len() as int;
    wrapped_by_cases(count);
    if sent <= count {
        wrapped_by_cases(count - sent);
    }
    if interface.open {
        lemma_wrapped_shift(count + 1, -(sent + 1));
    }
}

/// An executor starts with nothing: nothing was sent, no tag was given out, nothing waits, and
/// nothing is being polled. It receives.
pub proof fn nothing_at_the_start<F>()
    ensures
        started::<F>().runtime.queue.len() == 0,
        started::<F>().runtime.tags == 0,
        started::<F>().interface.sent.len() == 0,
        started::<F>().interface.tasks == 0,
        started::<F>().interface.open,
        started::<F>().current is None,
        started::<F>().abandoned is None,
{
}

/// A new task has the next tag, and stands before all others if it blocks and behind them if it
/// does not.
pub proof fn new_task_has_the_next_tag<F>(runtime: RuntimeState<F>, block: Blocking, future: F)
    requires
        runtime.tags < usize::MAX,
    ensures
        ({
            let task = Arc::new(Task { future, block, tag: runtime.tags });
            let later = runtime.queue_new(block, future);
            &&& later.tags == runtime.tags + 1
            &&& block is Blocking ==> later.queue == seq![task] + runtime.queue
            &&& block is NonBlocking ==> later.queue == runtime.queue.push(task)
        }),
{
}

/// What users do to an executor touches nothing but its interface.
pub proof fn users_touch_the_interface_only<F>(
    executor: ExecutorState<F>,
    block: Blocking,
    future: F,
)
    ensures
        executor.send(block, future).interface == executor.interface.send(block, future),
        executor.send(block, future).runtime == executor.runtime,
        executor.send(block, future).current == executor.current,
        executor.send(block, future).abandoned == executor.abandoned,
        executor.drop_task().interface == executor.interface.drop_task(),
        executor.drop_task().runtime == executor.runtime,
        executor.drop_task().current == executor.current,
        executor.drop_task().abandoned == executor.abandoned,
{
}

/// A task is unfinished if and only if it is being polled, or it waits, or it was being polled
/// when the executor ended.
pub proof fn unfinished_tasks_are_those_at_hand<F>(executor: ExecutorState<F>, tag: usize)
    ensures
        executor.is_unfinished(tag) <==> {
            ||| executor.current matches Some(current) && current.tag == tag
            ||| exists|i: int|
                0 <= i < executor.runtime.queue.len() && (
                #[trigger] executor.runtime.queue[i]).tag == tag
            ||| executor.abandoned == Some(tag)
        },
{
}

/// To wake a task that is not finished leaves all tasks that wait in their places: the queue is
/// the old one with the task behind it if it does not block, and with the task before it if it
/// does, be the task the one that is polled right now or not. To wake a finished task changes
/// nothing. Neither changes anything but the queue.
pub proof fn waking_leaves_others_in_place<F>(executor: ExecutorState<F>, task: Arc<Task<F>>)
    ensures
        executor.is_unfinished(task.tag) && task.block is NonBlocking ==> executor.wake(
            task,
        ).runtime.queue == executor.runtime.queue.push(task),
        executor.is_unfinished(task.tag) && task.block is Blocking ==> executor.wake(
            task,
        ).runtime.queue == seq![task] + executor.runtime.queue,
        !executor.is_unfinished(task.tag) ==> executor.wake(task) == executor,
        executor.wake(task).runtime.tags == executor.runtime.tags,
        executor.wake(task).interface == executor.interface,
        executor.wake(task).current == executor.current,
        executor.wake(task).abandoned == executor.abandoned,
{
}

/// Between two polls of a task that blocks, arrivals join the queue one by one, in the order in
/// which they were sent: one future more in the channel is one task more on the queue afterwards,
/// before all others there, arrivals or not, if it blocks, and behind all of them if it does not.
/// If nothing was sent, the queue stays as it is.
pub proof fn arrivals_join_between_polls<F>(
    executor: ExecutorState<F>,
    later: ExecutorState<F>,
    block: Blocking,
    future: F,
)
    requires
        executor.current is Some,
        executor.current.unwrap().block is Blocking,
        executor.runtime.tags + executor.interface.sent.len() < usize::MAX,
        later == (ExecutorState {
            interface: InterfaceState {
                sent: executor.interface.sent.push((block, future)),
                ..executor.interface
            },
            ..executor
        }),
    ensures
        ({
            let task = Arc::new(
                Task {
                    future,
                    block,
                    tag: (executor.runtime.tags + executor.interface.sent.len()) as usize,
                },
            );
            let without = executor.finish_poll(Poll::Pending).runtime;
            let with = later.finish_poll(Poll::Pending).runtime;
            &&& block is Blocking ==> with.queue == seq![task] + without.queue
            &&& block is NonBlocking ==> with.queue == without.queue.push(task)
            &&& with.tags == without.tags + 1
            &&& executor.interface.sent.len() == 0 ==> without == executor.runtime
        }),
{
    arrivals_join_one_by_one(executor.runtime, executor.interface.sent, block, future);
}

/// When a task is picked, arrivals have joined the queue before, one by one, in the order in which
/// they were sent: one future more in the channel is one task more among those that wait or were
/// picked, before all others, arrivals or not, if it blocks, and behind all of them if it does
/// not. If nothing was sent, they are those that have waited before.
pub proof fn arrivals_join_before_a_pick<F>(
    executor: ExecutorState<F>,
    later: ExecutorState<F>,
    block: Blocking,
    future: F,
)
    requires
        executor.runtime.tags + executor.interface.sent.len() < usize::MAX,
        later == (ExecutorState {
            interface: InterfaceState {
                sent: executor.interface.sent.push((block, future)),
                ..executor.interface
            },
            ..executor
        }),
    ensures
        ({
            let task = Arc::new(
                Task {
                    future,
                    block,
                    tag: (executor.runtime.tags + executor.interface.sent.len()) as usize,
                },
            );
            let without = match executor.next_task().current {
                Some(picked) => seq![picked] + executor.next_task().runtime.queue,
                None => executor.next_task().runtime.queue,
            };
            let with = match later.next_task().current {
                Some(picked) => seq![picked] + later.next_task().runtime.queue,
                None => later.next_task().runtime.queue,
            };
            &&& block is Blocking ==> with == seq![task] + without
            &&& block is NonBlocking ==> with == without.push(task)
            &&& later.next_task().runtime.tags == executor.next_task().runtime.tags + 1
            &&& executor.interface.sent.len() == 0 ==> without == executor.runtime.queue
                && executor.next_task().runtime.tags == executor.runtime.tags
        }),
{
    arrivals_join_one_by_one(executor.runtime, executor.interface.sent, block, future);
    let queue = executor.queue_all().runtime.queue;
    let longer = later.queue_all().runtime.queue;
    assert(longer.len() > 0);
    assert(seq![longer.first()] + longer.drop_first() =~= longer);
    if queue.len() > 0 {
        assert(seq![queue.first()] + queue.drop_first() =~= queue);
    }
}

/// All that was sent joins the queue of a runtime one by one, in the order in which it was sent:
/// one future more is one task more, with the next tag, before all others if it blocks, and behind
/// all of them if it does not. If nothing was sent, nothing changes.
pub proof fn arrivals_join_one_by_one<F>(
    runtime: RuntimeState<F>,
    sent: Seq<(Blocking, F)>,
    block: Blocking,
    future: F,
)
    requires
        runtime.tags + sent.len() < usize::MAX,
    ensures
        ({
            let task = Arc::new(Task { future, block, tag: (runtime.tags + sent.len()) as usize });
            let without = runtime.queue_all(sent);
            let with = runtime.queue_all(sent.push((block, future)));
            &&& block is Blocking ==> with.queue == seq![task] + without.queue
            &&& block is NonBlocking ==> with.queue == without.queue.push(task)
            &&& with.tags == without.tags + 1
            &&& sent.len() == 0 ==> without == runtime
        }),
{
    let fresh = new_tasks(sent, runtime.tags);
    let task = Arc::new(Task { future, block, tag: (runtime.tags + sent.len()) as usize });
    assert(new_tasks(sent.push((block, future)), runtime.tags) =~= fresh.push(task));
    requeued_all_push(runtime.queue, fresh, task);
    if sent.len() == 0 {
        reveal(Seq::filter);
        assert(runtime.queue_all(sent).queue =~= runtime.queue);
    }
}

/// The task that is picked is the one at the front of the queue, and the others wait as before.
/// No task is picked if and only if none waits and nothing was sent.
pub proof fn front_of_the_queue_is_picked<F>(executor: ExecutorState<F>)
    requires
        executor.runtime.tags + executor.interface.sent.len() <= usize::MAX,
    ensures
        executor.interface.sent.len() == 0 && executor.runtime.queue.len() > 0 ==> {
            &&& executor.next_task().current == Some(executor.runtime.queue.first())
            &&& executor.next_task().runtime.queue == executor.runtime.queue.drop_first()
        },
        executor.next_task().current is None <==> executor.interface.sent.len() == 0
            && executor.runtime.queue.len() == 0,
        executor.next_task().runtime.tags == executor.runtime.tags
            + executor.interface.sent.len(),
        executor.next_task().interface.sent.len() == 0,
        executor.next_task().interface.tasks == executor.interface.tasks,
        executor.next_task().interface.open == executor.interface.open,
        executor.next_task().abandoned == executor.abandoned,
{
    let sent = executor.interface.sent;
    let all = executor.runtime.queue_all(sent);
    if sent.len() == 0 {
        reveal(Seq::filter);
        assert(all.queue =~= executor.runtime.queue);
    } else {
        let message = sent.last();
        assert(sent.drop_last().push(message) =~= sent);
        arrivals_join_one_by_one(executor.runtime, sent.drop_last(), message.0, message.1);
    }
}

/// A task of which a poll is ready leaves the executor for good: the executor has no handle to
/// it any more, be it that it was woken while it was polled, and the others wait in the order
/// that they had.
pub proof fn ready_task_leaves<F>(executor: ExecutorState<F>)
    requires
        executor.current is Some,
    ensures
        ({
            let tag = executor.current.unwrap().tag;
            let later = executor.finish_poll(Poll::Ready);
            &&& later.current is None
            &&& later.runtime.queue == executor.runtime.queue.filter(
                |task: Arc<Task<F>>| task.tag != tag,
            )
            &&& forall|i: int|
                0 <= i < later.runtime.queue.len() ==> (#[trigger] later.runtime.queue[i]).tag
                    != tag
            &&& later.runtime.tags == executor.runtime.tags
            &&& later.interface == executor.interface
            &&& later.abandoned == executor.abandoned
        }),
{
    let keep = |task: Arc<Task<F>>| task.tag != executor.current.unwrap().tag;
    let later = executor.finish_poll(Poll::Ready).runtime.queue;
    assert forall|i: int| 0 <= i < later.len() implies (#[trigger] later[i]).tag
        != executor.current.unwrap().tag by {
        executor.runtime.queue.lemma_filter_pred(keep, i);
    }
}

/// A task that is pending and does not block gives way: it stands behind all that wait, and these
/// stay in their places.
pub proof fn pending_task_gives_way<F>(executor: ExecutorState<F>)
    requires
        executor.current is Some,
        executor.current.unwrap().block is NonBlocking,
    ensures
        ({
            let later = executor.finish_poll(Poll::Pending);
            &&& later.current is None
            &&& later.runtime.queue == executor.runtime.queue.push(executor.current.unwrap())
            &&& later.runtime.tags == executor.runtime.tags
            &&& later.interface == executor.interface
            &&& later.abandoned == executor.abandoned
            &&& !executor.polls_again(Poll::Pending)
        }),
{
}

/// A task that is pending and blocks is polled again at once, and all that was sent has been
/// received before.
pub proof fn blocking_task_is_polled_again<F>(executor: ExecutorState<F>)
    requires
        executor.current is Some,
        executor.current.unwrap().block is Blocking,
        executor.runtime.tags + executor.interface.sent.len() <= usize::MAX,
    ensures
        ({
            let later = executor.finish_poll(Poll::Pending);
            &&& later.current == executor.current
            &&& later.runtime.tags == executor.runtime.tags + executor.interface.sent.len()
            &&& later.interface.sent.len() == 0
            &&& later.interface.tasks == executor.interface.tasks
            &&& later.interface.open == executor.interface.open
            &&& later.abandoned == executor.abandoned
            &&& executor.polls_again(Poll::Pending)
            &&& !executor.polls_again(Poll::Ready)
        }),
{
}

/// An executor that has ended polls nothing and receives nothing. The tasks that have waited
/// stay on the queue, and the one that was being polled is remembered by its tag.
pub proof fn ending_stops_the_executor<F>(executor: ExecutorState<F>)
    ensures
        executor.end().runtime == executor.runtime,
        executor.end().current is None,
        executor.current matches Some(task) ==> executor.end().abandoned == Some(task.tag),
        executor.current is None ==> executor.end().abandoned == executor.abandoned,
        !executor.end().interface.open,
        executor.end().interface.sent.len() == 0,
        executor.end().interface == executor.interface.close(),
{
}

/// The number of futures that were sent so far goes up by one with each that is sent to an
/// executor that receives, and receiving does not change it. There are tags left for what was sent
/// if and only if that number is in the range of tags.
pub proof fn numbers_count_sends<F>(executor: ExecutorState<F>, block: Blocking, future: F)
    ensures
        executor.last_number() == executor.runtime.tags + executor.interface.sent.len(),
        executor.interface.open ==> executor.send(block, future).last_number()
            == executor.last_number() + 1,
        executor.has_tags() ==> executor.next_task().last_number() == executor.last_number(),
        executor.has_tags() <==> executor.last_number() <= usize::MAX,
{
}

/// A number is settled if and only if that many futures were received or none will be any more:
/// what was received is settled, and so is everything once the executor has ended, and a number
/// that an executor which still receives has not come to is not.
pub proof fn received_numbers_are_settled<F>(executor: ExecutorState<F>, number: int)
    ensures
        number <= executor.runtime.tags ==> executor.is_settled(number),
        !executor.interface.open ==> executor.is_settled(number),
        executor.interface.open && number > executor.runtime.tags ==> !executor.is_settled(number),
        executor.end().is_settled(number),
{
}

/// Picking a task settles the number of each future that was sent until then, and so does a
/// poll of a task that blocks and is pending: both have received all of them.
pub proof fn sent_numbers_are_settled_next<F>(executor: ExecutorState<F>, number: int)
    requires
        executor.has_tags(),
        number <= executor.runtime.tags + executor.interface.sent.len(),
    ensures
        executor.next_task().is_settled(number),
        executor.current is Some && executor.current.unwrap().block is Blocking
            ==> executor.finish_poll(Poll::Pending).is_settled(number),
{
}

} // verus!
