//! What holds of every state that an executor can reach.
use crate::futures::Poll;
use crate::runtime::executor::started;
use crate::runtime::executor::ExecutorState;
use crate::runtime::interface::count_range;
use crate::runtime::interface::wrapped;
use crate::runtime::interface::wrapped_by_cases;
use crate::runtime::new_tasks;
use crate::runtime::order::requeue_all_keeps_tags;
use crate::runtime::order::requeue_all_keeps_tasks;
use crate::runtime::order::requeue_keeps_tags;
use crate::runtime::order::requeue_keeps_tasks;
use crate::runtime::queue::has_tag;
use crate::runtime::queue::requeued;
use crate::runtime::queue::requeued_all;
use crate::runtime::queue::requeued_all_push;
use crate::runtime::queue::without;
use crate::runtime::queue::without_tag;
use crate::runtime::task::Blocking;
use crate::runtime::task::Task;
use std::sync::Arc;
use vstd::multiset::Multiset;
use vstd::prelude::*;

verus! {

/// Something that happens to an executor. Each stands for a call of the function that it
/// is named after.
pub enum Event<F> {
    /// A user sends a future: `Interface::spawn` or `Interface::block_on`.
    Send(Blocking, F),
    /// The executor picks a task: `Executor::next_task`.
    NextTask,
    /// The current task was polled: `Executor::finish_poll`.
    FinishPoll(Poll),
    /// Somebody who has a handle to a task makes a waker for it: `Task::waker`.
    MakeWaker(Arc<Task<F>>),
    /// Somebody wakes a task, which uses a waker up: `Executor::wake`.
    Wake(Arc<Task<F>>),
    /// Somebody lets go of a handle to the task with this tag, be it a waker.
    DropHandle(int),
    /// The last handle to the task with this tag is gone: `Interface::drop_task`.
    DropTask(int),
    /// Nobody runs the executor any more: `Executor::end`.
    End,
}

/// An executor, together with the tasks that were made and not yet dropped.
pub struct World<F> {
    /// The state of the executor.
    pub executor: ExecutorState<F>,
    /// The tasks that exist, each under its tag.
    pub live: Map<int, Arc<Task<F>>>,
    /// The handles to tasks that others than the executor have: wakers, and what the executor
    /// hands out to be polled. Each is given by the tag of its task.
    pub outside: Multiset<int>,
}

/// The handles that an executor has to its tasks: to the one that is being polled and to
/// those that wait.
pub open spec fn handles<F>(executor: ExecutorState<F>) -> Seq<Arc<Task<F>>> {
    match executor.current {
        Some(task) => seq![task] + executor.runtime.queue,
        None => executor.runtime.queue,
    }
}

impl<F> World<F> {
    /// The tasks that exist once all that was sent has been made into tasks.
    pub open spec fn live_after_queue_all(self) -> Map<int, Arc<Task<F>>> {
        let tags = self.executor.runtime.tags;
        let sent = self.executor.interface.sent;
        Map::new(
            |tag: int| self.live.contains_key(tag) || tags <= tag < tags + sent.len(),
            |tag: int|
                if tags <= tag < tags + sent.len() {
                    new_tasks(sent, tags)[tag - tags]
                } else {
                    self.live[tag]
                },
        )
    }

    /// How many handles there are to the task with the tag `tag`, whoever has them.
    pub open spec fn handle_count(self, tag: usize) -> nat {
        handles(self.executor).filter(|task: Arc<Task<F>>| task.tag == tag).len()
            + self.outside.count(tag as int)
    }

    /// Whether `event` can happen now. Who makes a waker, wakes a task or lets go of a handle
    /// has a handle to that task, and a task is dropped only when nobody has one.
    pub open spec fn admits(self, event: Event<F>) -> bool {
        match event {
            Event::Send(_, _) => true,
            Event::NextTask => self.executor.interface.open && self.executor.current is None
                && self.executor.has_tags(),
            Event::FinishPoll(outcome) => self.executor.current is Some && (
            self.executor.polls_again(outcome) ==> self.executor.has_tags()),
            Event::MakeWaker(task) => self.knows(task) && self.outside.count(task.tag as int) > 0,
            Event::Wake(task) => self.knows(task) && self.outside.count(task.tag as int) > 0,
            Event::DropHandle(tag) => self.outside.count(tag) > 0,
            Event::DropTask(tag) => {
                &&& self.live.contains_key(tag)
                &&& self.outside.count(tag) == 0
                &&& forall|i: int|
                    0 <= i < handles(self.executor).len() ==> (
                    #[trigger] handles(self.executor)[i]).tag != tag
            },
            Event::End => true,
        }
    }

    /// The handles of others once they have one more to `task`, if there is such a task.
    pub open spec fn hand_out(self, task: Option<Arc<Task<F>>>) -> Multiset<int> {
        match task {
            Some(task) => self.outside.insert(task.tag as int),
            None => self.outside,
        }
    }

    /// What the world is after `event`.
    pub open spec fn after(self, event: Event<F>) -> Self {
        match event {
            Event::Send(block, future) => World {
                executor: self.executor.send(block, future),
                ..self
            },
            Event::NextTask => World {
                executor: self.executor.next_task(),
                live: self.live_after_queue_all(),
                outside: self.hand_out(self.executor.next_task().current),
            },
            Event::FinishPoll(outcome) => World {
                executor: self.executor.finish_poll(outcome),
                live: if self.executor.polls_again(outcome) {
                    self.live_after_queue_all()
                } else {
                    self.live
                },
                outside: self.outside,
            },
            Event::MakeWaker(task) => World {
                outside: self.outside.insert(task.tag as int),
                ..self
            },
            Event::Wake(task) => World {
                executor: self.executor.wake(task),
                outside: self.outside.remove(task.tag as int),
                ..self
            },
            Event::DropHandle(tag) => World { outside: self.outside.remove(tag), ..self },
            Event::DropTask(tag) => World {
                executor: self.executor.drop_task(),
                live: self.live.remove(tag),
                ..self
            },
            Event::End => World {
                executor: self.executor.end(),
                outside: self.hand_out(self.executor.current),
                ..self
            },
        }
    }

    /// What the world is after all of `events`, the first one first.
    pub open spec fn after_all(self, events: Seq<Event<F>>) -> Self
        decreases events.len(),
    {
        if events.len() == 0 {
            self
        } else {
            self.after_all(events.drop_last()).after(events.last())
        }
    }

    /// Whether all of `events` can happen, one after the other.
    pub open spec fn admits_all(self, events: Seq<Event<F>>) -> bool
        decreases events.len(),
    {
        events.len() > 0 ==> self.admits_all(events.drop_last()) && self.after_all(
            events.drop_last(),
        ).admits(events.last())
    }

    /// The books are right: each task exists under a tag that was given out, all handles are to
    /// tasks that exist, and the count of tasks is the number of futures that were sent and not
    /// received and of tasks that exist. An executor that has ended polls nothing, and one that
    /// runs has abandoned no task.
    pub open spec fn accounted(self) -> bool {
        &&& self.live.dom().finite()
        &&& self.executor.interface.tasks == wrapped(
            (self.executor.interface.sent.len() + self.live.dom().len()) as int,
        )
        &&& self.executor.interface.open || self.executor.interface.sent.len() == 0
        &&& forall|tag: int| #[trigger]
            self.live.contains_key(tag) ==> 0 <= tag < self.executor.runtime.tags
                && self.live[tag].tag == tag
        &&& forall|i: int|
            0 <= i < handles(self.executor).len() ==> self.knows(#[trigger] handles(self.executor)[i])
        &&& forall|tag: int| #[trigger]
            self.outside.count(tag) > 0 ==> self.live.contains_key(tag)
        &&& self.executor.current is Some ==> self.executor.interface.open
        &&& self.executor.interface.open ==> self.executor.abandoned is None
        &&& self.executor.abandoned matches Some(tag) ==> tag < self.executor.runtime.tags
    }

    /// Whether `task` is one of the tasks that exist.
    pub open spec fn knows(self, task: Arc<Task<F>>) -> bool {
        self.live.contains_key(task.tag as int) && self.live[task.tag as int] == task
    }
}

/// The world right after an executor was started.
pub open spec fn new_world<F>() -> World<F> {
    World { executor: started(), live: Map::empty(), outside: Multiset::empty() }
}

/// One more or one less in a count that starts again comes to one more or one less in what
/// is counted.
pub proof fn lemma_wrapped_shift(count: int, by: int)
    ensures
        wrapped(wrapped(count) + by) == wrapped(count + by),
{
    let range = count_range();
    vstd::arithmetic::div_mod::lemma_mod_bound(count, range);
    vstd::arithmetic::div_mod::lemma_add_mod_noop_right(by, count, range);
}

/// All that was sent becomes a task of its own, under a tag that no other task ever had.
proof fn lemma_live_after_queue_all<F>(world: World<F>)
    requires
        world.accounted(),
        world.executor.has_tags(),
    ensures
        world.live_after_queue_all().dom().finite(),
        world.live_after_queue_all().dom().len() == world.live.dom().len()
            + world.executor.interface.sent.len(),
{
    let tags = world.executor.runtime.tags as int;
    let sent = world.executor.interface.sent.len() as int;
    let fresh = vstd::set_lib::set_int_range(tags, tags + sent);
    vstd::set_lib::lemma_int_range(tags, tags + sent);
    assert(world.live.dom().disjoint(fresh));
    vstd::set_lib::lemma_set_disjoint_lens(world.live.dom(), fresh);
    assert(world.live_after_queue_all().dom() =~= world.live.dom().union(fresh));
}

/// What is in a sequence that holds the same tasks as two others together is in one of them.
proof fn lemma_member_of_sum<F>(
    all: Seq<Arc<Task<F>>>,
    left: Seq<Arc<Task<F>>>,
    right: Seq<Arc<Task<F>>>,
    i: int,
)
    requires
        all.to_multiset() == left.to_multiset().add(right.to_multiset()),
        0 <= i < all.len(),
    ensures
        left.contains(all[i]) || right.contains(all[i]),
{
    broadcast use vstd::seq_lib::group_to_multiset_ensures;

    assert(all.contains(all[i]));
    assert(all.to_multiset().count(all[i]) > 0);
}

/// Once all that was sent is on the queue, the executor has handles to tasks that exist only.
proof fn lemma_queue_all_known<F>(world: World<F>)
    requires
        world.accounted(),
        world.executor.has_tags(),
    ensures
        ({
            let later = World {
                executor: world.executor.queue_all(),
                live: world.live_after_queue_all(),
                outside: world.outside,
            };
            forall|i: int|
                0 <= i < handles(later.executor).len() ==> later.knows(
                    #[trigger] handles(later.executor)[i],
                )
        }),
{
    let later = World {
        executor: world.executor.queue_all(),
        live: world.live_after_queue_all(),
        outside: world.outside,
    };
    let tags = world.executor.runtime.tags;
    let queue = world.executor.runtime.queue;
    let fresh = new_tasks(world.executor.interface.sent, tags);
    let shift: int = if world.executor.current is Some { 1 } else { 0 };
    requeue_all_keeps_tasks(queue, fresh);
    assert forall|i: int| 0 <= i < handles(later.executor).len() implies later.knows(
        #[trigger] handles(later.executor)[i],
    ) by {
        let task = handles(later.executor)[i];
        if i < shift {
            assert(task == handles(world.executor)[0]);
            assert(world.knows(task));
        } else {
            let all = later.executor.runtime.queue;
            assert(task == all[i - shift]);
            lemma_member_of_sum(all, queue, fresh, i - shift);
            if queue.contains(task) {
                let j = queue.index_of(task);
                assert(task == handles(world.executor)[j + shift]);
                assert(world.knows(task));
            } else {
                let j = fresh.index_of(task);
                assert(task == fresh[j]);
                assert(task.tag == tags + j);
            }
        }
    }
}

/// A new executor has its books right.
pub proof fn new_world_is_accounted<F>()
    ensures
        new_world::<F>().accounted(),
{
    wrapped_by_cases(0);
}

/// Whatever happens, the books stay right.
pub proof fn books_stay_right<F>(world: World<F>, event: Event<F>)
    requires
        world.accounted(),
        world.admits(event),
    ensures
        world.after(event).accounted(),
{
    let later = world.after(event);
    let count = (world.executor.interface.sent.len() + world.live.dom().len()) as int;
    match event {
        Event::Send(block, future) => {
            lemma_wrapped_shift(count, 1);
            assert(handles(later.executor) == handles(world.executor));
        },
        Event::NextTask => {
            lemma_live_after_queue_all(world);
            lemma_queue_all_known(world);
            let queued = World {
                executor: world.executor.queue_all(),
                live: world.live_after_queue_all(),
                outside: world.outside,
            };
            assert(handles(later.executor) =~= handles(queued.executor));
            if later.executor.current is Some {
                assert(later.knows(handles(later.executor)[0]));
            }
        },
        Event::FinishPoll(outcome) => {
            assert(world.knows(handles(world.executor)[0]));
            if world.executor.polls_again(outcome) {
                lemma_live_after_queue_all(world);
                lemma_queue_all_known(world);
            } else if outcome is Ready {
                let queue = world.executor.runtime.queue;
                without_tag(queue, world.executor.current.unwrap().tag);
                assert forall|i: int| 0 <= i < handles(later.executor).len() implies later.knows(
                    #[trigger] handles(later.executor)[i],
                ) by {
                    let task = handles(later.executor)[i];
                    assert(queue.contains(task));
                    assert(task == handles(world.executor)[queue.index_of(task) + 1]);
                    assert(world.knows(task));
                }
            } else {
                assert forall|i: int| 0 <= i < handles(later.executor).len() implies later.knows(
                    #[trigger] handles(later.executor)[i],
                ) by {
                    let task = handles(later.executor)[i];
                    if i < world.executor.runtime.queue.len() {
                        assert(task == handles(world.executor)[i + 1]);
                    } else {
                        assert(task == handles(world.executor)[0]);
                    }
                    assert(world.knows(task));
                }
            }
        },
        Event::Wake(task) => {
            let queue = world.executor.runtime.queue;
            requeue_keeps_tasks(queue, task);
            let shift: int = if world.executor.current is Some { 1 } else { 0 };
            assert forall|i: int| 0 <= i < handles(later.executor).len() implies later.knows(
                #[trigger] handles(later.executor)[i],
            ) by {
                let handle = handles(later.executor)[i];
                if i < shift {
                    assert(handle == handles(world.executor)[0]);
                    assert(world.knows(handle));
                } else if !world.executor.is_unfinished(task.tag) {
                    assert(handle == handles(world.executor)[i]);
                    assert(world.knows(handle));
                } else if handle != task {
                    if task.block is Blocking {
                        assert(handle == queue[i - shift - 1]);
                        assert(handle == handles(world.executor)[i - 1]);
                    } else {
                        assert(handle == queue[i - shift]);
                        assert(handle == handles(world.executor)[i]);
                    }
                    assert(world.knows(handle));
                }
            }
        },
        Event::DropTask(tag) => {
            lemma_wrapped_shift(count, -1);
            assert(later.live.dom() =~= world.live.dom().remove(tag));
            assert forall|i: int| 0 <= i < handles(later.executor).len() implies later.knows(
                #[trigger] handles(later.executor)[i],
            ) by {
                assert(world.knows(handles(world.executor)[i]));
            }
        },
        Event::End => {
            lemma_wrapped_shift(count, -(world.executor.interface.sent.len() as int));
            let shift: int = if world.executor.current is Some { 1 } else { 0 };
            assert forall|i: int| 0 <= i < handles(later.executor).len() implies later.knows(
                #[trigger] handles(later.executor)[i],
            ) by {
                assert(handles(later.executor)[i] == handles(world.executor)[i + shift]);
                assert(world.knows(handles(world.executor)[i + shift]));
            }
            if world.executor.current is Some {
                assert(world.knows(handles(world.executor)[0]));
            }
        },
        _ => {},
    }
}

/// In every state that an executor can reach, the books are right.
pub proof fn books_are_right<F>(events: Seq<Event<F>>)
    requires
        new_world::<F>().admits_all(events),
    ensures
        new_world::<F>().after_all(events).accounted(),
    decreases events.len(),
{
    if events.len() == 0 {
        new_world_is_accounted::<F>();
    } else {
        books_are_right(events.drop_last());
        books_stay_right(new_world::<F>().after_all(events.drop_last()), events.last());
    }
}

/// To wait for a runtime is to wait for all that was sent to it: the count of tasks is zero,
/// and waiting ends, if and only if every future that was sent was received and every task
/// made of one is gone. Then nothing waits and nothing is being polled.
pub proof fn waiting_ends_when_all_is_done<F>(world: World<F>)
    requires
        world.accounted(),
        world.executor.interface.sent.len() + world.live.dom().len() <= usize::MAX,
    ensures
        world.executor.interface.tasks == 0 <==> world.executor.interface.sent.len() == 0
            && world.live.dom() == Set::<int>::empty(),
        world.executor.interface.tasks == 0 ==> handles(world.executor).len() == 0,
{
    let count = (world.executor.interface.sent.len() + world.live.dom().len()) as int;
    wrapped_by_cases(count);
    if world.live.dom().len() == 0 {
        world.live.dom().lemma_len0_is_empty();
        if handles(world.executor).len() > 0 {
            assert(world.knows(handles(world.executor)[0]));
        }
    }
}

/// A tag stands for one task: two handles with the same tag are handles to the same task.
pub proof fn tag_identifies_task<F>(world: World<F>, i: int, j: int)
    requires
        world.accounted(),
        0 <= i < handles(world.executor).len(),
        0 <= j < handles(world.executor).len(),
        handles(world.executor)[i].tag == handles(world.executor)[j].tag,
    ensures
        handles(world.executor)[i] == handles(world.executor)[j],
{
    assert(world.knows(handles(world.executor)[i]));
    assert(world.knows(handles(world.executor)[j]));
}

/// Tags are never used again: whatever happens, a task under a tag that was given out before
/// is the task that had that tag then.
pub proof fn tags_are_never_used_again<F>(world: World<F>, events: Seq<Event<F>>, tag: int)
    requires
        world.admits_all(events),
        world.after_all(events).live.contains_key(tag),
        tag < world.executor.runtime.tags,
    ensures
        world.live.contains_key(tag),
        world.after_all(events).live[tag] == world.live[tag],
    decreases events.len(),
{
    if events.len() > 0 {
        tags_only_grow(world, events.drop_last());
        tags_are_never_used_again(world, events.drop_last(), tag);
    }
}

/// The number of tags that were given out never goes down.
pub proof fn tags_only_grow<F>(world: World<F>, events: Seq<Event<F>>)
    requires
        world.admits_all(events),
    ensures
        world.executor.runtime.tags <= world.after_all(events).executor.runtime.tags,
    decreases events.len(),
{
    if events.len() > 0 {
        tags_only_grow(world, events.drop_last());
    }
}

/// No task gets lost: the executor gives up its handles to a task only when a poll of that task
/// is ready, or when the executor ends in the middle of one. Apart from that, the handles that
/// it has after an event are those that it had before, one to each task made of what it
/// received, and one more to a task that was woken before it was ready.
pub proof fn tasks_leave_only_when_ready<F>(world: World<F>, event: Event<F>)
    requires
        world.admits(event),
    ensures
        ({
            let before = handles(world.executor);
            let after = handles(world.after(event).executor);
            let received = new_tasks(
                world.executor.interface.sent,
                world.executor.runtime.tags,
            );
            match event {
                Event::NextTask => after.to_multiset() == before.to_multiset().add(
                    received.to_multiset(),
                ),
                Event::FinishPoll(outcome) => if outcome is Ready {
                    after == without(before, world.executor.current.unwrap().tag)
                } else if world.executor.polls_again(outcome) {
                    after.to_multiset() == before.to_multiset().add(received.to_multiset())
                } else {
                    after.to_multiset() == before.to_multiset()
                },
                Event::Wake(task) => if world.executor.is_unfinished(task.tag) {
                    after.to_multiset() == before.to_multiset().insert(task)
                } else {
                    after == before
                },
                Event::End => after == world.executor.runtime.queue,
                _ => after == before,
            }
        }),
{
    broadcast use vstd::seq_lib::group_to_multiset_ensures;

    let executor = world.executor;
    let queue = executor.runtime.queue;
    let fresh = new_tasks(executor.interface.sent, executor.runtime.tags);
    requeue_all_keeps_tasks(queue, fresh);
    match event {
        Event::NextTask => {
            assert(handles(world.after(event).executor) =~= executor.queue_all().runtime.queue);
        },
        Event::FinishPoll(outcome) => {
            let task = executor.current.unwrap();
            lemma_handles_with_current(executor);
            if outcome is Ready {
                lemma_without_front(queue, task);
            } else if executor.polls_again(outcome) {
                lemma_handles_with_current(executor.queue_all());
                assert(queue.to_multiset().add(fresh.to_multiset()).insert(task)
                    =~= queue.to_multiset().insert(task).add(fresh.to_multiset()));
            } else {
                requeue_keeps_tasks(queue, task);
            }
        },
        Event::Wake(task) => {
            requeue_keeps_tasks(queue, task);
            if executor.current is Some && executor.is_unfinished(task.tag) {
                let current = executor.current.unwrap();
                lemma_handles_with_current(executor);
                lemma_handles_with_current(executor.wake(task));
                assert(queue.to_multiset().insert(task).insert(current)
                    =~= queue.to_multiset().insert(current).insert(task));
            }
        },
        _ => {},
    }
}

/// What stands behind a task that has the tag is left as it would be without that task.
proof fn lemma_without_front<F>(queue: Seq<Arc<Task<F>>>, task: Arc<Task<F>>)
    ensures
        without(seq![task] + queue, task.tag) == without(queue, task.tag),
{
    let keep = |other: Arc<Task<F>>| other.tag != task.tag;
    Seq::filter_distributes_over_add(seq![task], queue, keep);
    reveal_with_fuel(Seq::filter, 2);
    assert(seq![task].filter(keep) =~= Seq::empty());
    assert(Seq::<Arc<Task<F>>>::empty() + queue.filter(keep) =~= queue.filter(keep));
}

/// The handles of an executor that polls a task are that to the polled task and those on the queue.
proof fn lemma_handles_with_current<F>(executor: ExecutorState<F>)
    requires
        executor.current is Some,
    ensures
        handles(executor).to_multiset() == executor.runtime.queue.to_multiset().insert(
            executor.current.unwrap(),
        ),
{
    broadcast use vstd::seq_lib::group_to_multiset_ensures;

    let task = executor.current.unwrap();
    let queue = executor.runtime.queue;
    vstd::seq_lib::lemma_multiset_commutative(seq![task], queue);
    assert(seq![task] =~= Seq::<Arc<Task<F>>>::empty().push(task));
    assert(handles(executor).to_multiset() =~= queue.to_multiset().insert(task));
}

/// Blocking on a task stops all others until it completes: once a task that blocks is being
/// polled, it is the one that is being polled until a poll of it is ready, whatever else
/// happens while the executor runs.
pub proof fn blocking_task_stops_others<F>(world: World<F>, events: Seq<Event<F>>)
    requires
        world.executor.current is Some,
        world.executor.current.unwrap().block is Blocking,
        world.admits_all(events),
        forall|i: int|
            0 <= i < events.len() ==> #[trigger] events[i] != Event::<F>::FinishPoll(Poll::Ready)
                && events[i] != Event::<F>::End,
    ensures
        world.after_all(events).executor.current == world.executor.current,
    decreases events.len(),
{
    if events.len() > 0 {
        let earlier = events.drop_last();
        assert forall|i: int| 0 <= i < earlier.len() implies #[trigger] earlier[i] != Event::<
            F,
        >::FinishPoll(Poll::Ready) && earlier[i] != Event::<F>::End by {
            assert(earlier[i] == events[i]);
        }
        blocking_task_stops_others(world, earlier);
        assert(events[events.len() - 1] != Event::<F>::FinishPoll(Poll::Ready));
    }
}

/// An executor that has ended receives nothing and polls nothing any more: whatever happens
/// after that, all that users send is refused and changes nothing, and no task is picked.
pub proof fn ended_executor_stands_still<F>(world: World<F>, events: Seq<Event<F>>)
    requires
        !world.executor.interface.open,
        world.executor.current is None,
        world.admits_all(events),
    ensures
        !world.after_all(events).executor.interface.open,
        world.after_all(events).executor.current is None,
        forall|block: Blocking, future: F|
            #[trigger] world.after_all(events).executor.send(block, future) == world.after_all(
                events,
            ).executor,
    decreases events.len(),
{
    if events.len() > 0 {
        ended_executor_stands_still(world, events.drop_last());
    }
}

/// The executor holds a task if and only if one of its handles has the tag of that task.
pub proof fn lemma_holds_is_handle<F>(executor: ExecutorState<F>, tag: usize)
    ensures
        executor.holds(tag) == has_tag(handles(executor), tag),
{
    let queue = executor.runtime.queue;
    let shift: int = if executor.current is Some { 1 } else { 0 };
    if has_tag(queue, tag) {
        let i = choose|i: int| 0 <= i < queue.len() && (#[trigger] queue[i]).tag == tag;
        assert(handles(executor)[i + shift].tag == tag);
    } else if executor.holds(tag) {
        assert(handles(executor)[0].tag == tag);
    } else if has_tag(handles(executor), tag) {
        let i = choose|i: int|
            0 <= i < handles(executor).len() && (#[trigger] handles(executor)[i]).tag == tag;
        if i >= shift {
            assert(queue[i - shift].tag == tag);
        }
    }
}

/// Which tags the executor holds after it has received all that was sent: those that it held
/// before, and those that the new tasks got.
proof fn lemma_queue_all_holds<F>(executor: ExecutorState<F>, tag: usize)
    requires
        executor.has_tags(),
    ensures
        executor.queue_all().holds(tag) == (executor.holds(tag) || executor.runtime.tags <= tag
            < executor.runtime.tags + executor.interface.sent.len()),
{
    let tags = executor.runtime.tags;
    let fresh = new_tasks(executor.interface.sent, tags);
    requeue_all_keeps_tags(executor.runtime.queue, fresh, tag);
    if tags <= tag < tags + executor.interface.sent.len() {
        assert(fresh[tag - tags].tag == tag);
    } else if has_tag(fresh, tag) {
        let i = choose|i: int| 0 <= i < fresh.len() && (#[trigger] fresh[i]).tag == tag;
        assert(fresh[i].tag == tags + i);
    }
}

/// A task is unfinished from the moment that it is made until a poll of it is ready, and nothing
/// else that happens changes anything about that.
pub proof fn unfinished_until_ready<F>(world: World<F>, event: Event<F>, tag: usize)
    requires
        world.accounted(),
        world.admits(event),
    ensures
        ({
            let before = world.executor;
            let after = world.after(event).executor;
            let fresh = before.runtime.tags <= tag < after.runtime.tags;
            let ready = event == Event::<F>::FinishPoll(Poll::Ready) && before.current.unwrap().tag
                == tag;
            after.is_unfinished(tag) == ((before.is_unfinished(tag) || fresh) && !ready)
        }),
        world.executor.runtime.tags <= world.after(event).executor.runtime.tags,
{
    let before = world.executor;
    let queue = before.runtime.queue;
    match event {
        Event::NextTask => {
            lemma_queue_all_holds(before, tag);
            lemma_holds_is_handle(before.queue_all(), tag);
            lemma_holds_is_handle(before.next_task(), tag);
            assert(handles(before.next_task()) =~= handles(before.queue_all()));
        },
        Event::FinishPoll(outcome) => {
            if outcome is Ready {
                without_tag(queue, before.current.unwrap().tag);
            } else if before.polls_again(outcome) {
                lemma_queue_all_holds(before, tag);
            } else {
                requeue_keeps_tags(queue, before.current.unwrap(), tag);
            }
        },
        Event::Wake(task) => {
            requeue_keeps_tags(queue, task, tag);
        },
        _ => {},
    }
}

/// A task that is finished stays finished, whatever happens.
proof fn lemma_finished_stays_finished<F>(world: World<F>, events: Seq<Event<F>>, tag: usize)
    requires
        world.accounted(),
        world.admits_all(events),
        tag < world.executor.runtime.tags,
        !world.executor.is_unfinished(tag),
    ensures
        !world.after_all(events).executor.is_unfinished(tag),
        tag < world.after_all(events).executor.runtime.tags,
    decreases events.len(),
{
    if events.len() > 0 {
        lemma_finished_stays_finished(world, events.drop_last(), tag);
        lemma_history_keeps_books(world, events.drop_last());
        unfinished_until_ready(world.after_all(events.drop_last()), events.last(), tag);
    }
}

/// A task that is ready is finished: once a poll of it came to ready, it never waits and is never
/// polled again, whatever happens, be it that somebody wakes it.
pub proof fn ready_task_is_finished<F>(world: World<F>, events: Seq<Event<F>>)
    requires
        world.accounted(),
        world.executor.current is Some,
        world.after(Event::FinishPoll(Poll::Ready)).admits_all(events),
    ensures
        ({
            let tag = world.executor.current.unwrap().tag;
            let later = world.after(Event::FinishPoll(Poll::Ready)).after_all(events).executor;
            &&& !later.is_unfinished(tag)
            &&& !later.holds(tag)
            &&& later.current matches Some(task) ==> task.tag != tag
        }),
{
    let task = world.executor.current.unwrap();
    let ready = Event::<F>::FinishPoll(Poll::Ready);
    assert(handles(world.executor)[0] == task);
    assert(world.knows(task));
    books_stay_right(world, ready);
    unfinished_until_ready(world, ready, task.tag);
    lemma_finished_stays_finished(world.after(ready), events, task.tag);
}

/// A waker is one more handle to its task, and nothing else. To make one changes nothing about
/// the executor. To let go of it unused leaves everything as it was before. To use it does to the
/// queue what waking the task itself does if the task is not ready, and gives the handle to the
/// queue; if the task is ready, everything is as before.
pub proof fn waker_is_one_more_handle<F>(world: World<F>, task: Arc<Task<F>>)
    requires
        world.admits(Event::MakeWaker(task)),
    ensures
        ({
            let made = world.after(Event::MakeWaker(task));
            let woken = made.after(Event::Wake(task));
            &&& made.executor == world.executor
            &&& made.live == world.live
            &&& made.handle_count(task.tag) == world.handle_count(task.tag) + 1
            &&& forall|other: usize|
                other != task.tag ==> #[trigger] made.handle_count(other) == world.handle_count(
                    other,
                )
            &&& made.admits(Event::DropHandle(task.tag as int))
            &&& made.after(Event::DropHandle(task.tag as int)) == world
            &&& made.admits(Event::Wake(task))
            &&& world.executor.is_unfinished(task.tag) ==> {
                &&& woken.executor == world.executor.requeue(task)
                &&& woken.live == world.live
                &&& woken.handle_count(task.tag) == world.handle_count(task.tag) + 1
            }
            &&& !world.executor.is_unfinished(task.tag) ==> woken == world
        }),
{
    let made = world.after(Event::MakeWaker(task));
    let woken = made.after(Event::Wake(task));
    assert(world.outside.insert(task.tag as int).remove(task.tag as int) =~= world.outside);
    if world.executor.is_unfinished(task.tag) {
        let same = |other: Arc<Task<F>>| other.tag == task.tag;
        let queue = world.executor.runtime.queue;
        lemma_filter_requeued(queue, task, same);
        match world.executor.current {
            Some(current) => {
                Seq::filter_distributes_over_add(seq![current], queue, same);
                Seq::filter_distributes_over_add(seq![current], requeued(queue, task), same);
            },
            None => {},
        }
    }
}

/// A task that joins a queue is one more of those that a property holds of, if it holds of it.
proof fn lemma_filter_requeued<F>(
    tasks: Seq<Arc<Task<F>>>,
    task: Arc<Task<F>>,
    keep: spec_fn(Arc<Task<F>>) -> bool,
)
    requires
        keep(task),
    ensures
        requeued(tasks, task).filter(keep).len() == tasks.filter(keep).len() + 1,
{
    reveal_with_fuel(Seq::filter, 2);
    Seq::filter_distributes_over_add(seq![task], tasks, keep);
    assert(seq![task].drop_last() =~= Seq::empty());
    assert(tasks.push(task).drop_last() =~= tasks);
}

/// Whether all tasks of `tasks` that block stand before all that do not.
pub open spec fn blocking_first<F>(tasks: Seq<Arc<Task<F>>>) -> bool {
    forall|i: int, j: int|
        0 <= i < j < tasks.len() && (#[trigger] tasks[j]).block is Blocking ==> (
        #[trigger] tasks[i]).block is Blocking
}

/// Arrivals leave the tasks that block in front.
proof fn lemma_requeued_all_blocking_first<F>(
    tasks: Seq<Arc<Task<F>>>,
    arrivals: Seq<Arc<Task<F>>>,
)
    requires
        blocking_first(tasks),
    ensures
        blocking_first(requeued_all(tasks, arrivals)),
    decreases arrivals.len(),
{
    if arrivals.len() == 0 {
        reveal(Seq::filter);
        assert(requeued_all(tasks, arrivals) =~= tasks);
    } else {
        let earlier = arrivals.drop_last();
        assert(arrivals =~= earlier.push(arrivals.last()));
        requeued_all_push(tasks, earlier, arrivals.last());
        lemma_requeued_all_blocking_first(tasks, earlier);
    }
}

/// What is taken off a queue leaves the tasks that block in front.
proof fn lemma_without_blocking_first<F>(tasks: Seq<Arc<Task<F>>>, tag: usize)
    requires
        blocking_first(tasks),
    ensures
        blocking_first(without(tasks, tag)),
    decreases tasks.len(),
{
    reveal(Seq::filter);
    if tasks.len() > 0 {
        let rest = tasks.drop_last();
        let kept = without(rest, tag);
        assert forall|i: int, j: int|
            0 <= i < j < rest.len() && (#[trigger] rest[j]).block is Blocking implies (
        #[trigger] rest[i]).block is Blocking by {
            assert(tasks[i] == rest[i] && tasks[j] == rest[j]);
        }
        lemma_without_blocking_first(rest, tag);
        without_tag(rest, tag);
        if tasks.last().tag != tag && tasks.last().block is Blocking {
            assert forall|i: int| 0 <= i < kept.len() implies (#[trigger] kept[i]).block
                is Blocking by {
                assert(rest.contains(kept[i]));
                let k = rest.index_of(kept[i]);
                assert(tasks[k].block is Blocking && tasks[tasks.len() - 1].block is Blocking);
            }
        }
    }
}

/// Whatever happens, tasks that block keep standing before those that do not.
pub proof fn blocking_tasks_stay_first<F>(world: World<F>, event: Event<F>)
    requires
        world.admits(event),
        blocking_first(world.executor.runtime.queue),
    ensures
        blocking_first(world.after(event).executor.runtime.queue),
{
    let executor = world.executor;
    let queue = executor.runtime.queue;
    let fresh = new_tasks(executor.interface.sent, executor.runtime.tags);
    lemma_requeued_all_blocking_first(queue, fresh);
    match event {
        Event::NextTask => {
            let all = executor.queue_all().runtime.queue;
            if all.len() > 0 {
                let left = world.after(event).executor.runtime.queue;
                assert forall|i: int, j: int|
                    0 <= i < j < left.len() && (#[trigger] left[j]).block is Blocking implies (
                #[trigger] left[i]).block is Blocking by {
                    assert(left[i] == all[i + 1] && left[j] == all[j + 1]);
                }
            }
        },
        Event::FinishPoll(outcome) => {
            lemma_without_blocking_first(queue, executor.current.unwrap().tag);
        },
        _ => {},
    }
}

/// In every state that an executor can reach, tasks that block stand before those that do not.
pub proof fn blocking_tasks_stand_first<F>(events: Seq<Event<F>>)
    requires
        new_world::<F>().admits_all(events),
    ensures
        blocking_first(new_world::<F>().after_all(events).executor.runtime.queue),
    decreases events.len(),
{
    if events.len() > 0 {
        blocking_tasks_stand_first(events.drop_last());
        blocking_tasks_stay_first(
            new_world::<F>().after_all(events.drop_last()),
            events.last(),
        );
    }
}

impl<F> World<F> {
    /// The tasks that are picked to be polled in the course of `events`, in order.
    pub open spec fn picks(self, events: Seq<Event<F>>) -> Seq<Arc<Task<F>>>
        decreases events.len(),
    {
        if events.len() == 0 {
            Seq::empty()
        } else {
            let earlier = self.picks(events.drop_last());
            match (events.last(), self.after_all(events).executor.current) {
                (Event::NextTask, Some(task)) => earlier.push(task),
                _ => earlier,
            }
        }
    }

    /// The tags of the tasks of which a poll is ready in the course of `events`.
    pub open spec fn readied(self, events: Seq<Event<F>>) -> Set<int>
        decreases events.len(),
    {
        if events.len() == 0 {
            Set::empty()
        } else {
            let earlier = self.readied(events.drop_last());
            if events.last() == Event::<F>::FinishPoll(Poll::Ready) {
                earlier.insert(
                    self.after_all(events.drop_last()).executor.current.unwrap().tag as int,
                )
            } else {
                earlier
            }
        }
    }

    /// What users send in the course of `events` and is not refused, in order.
    pub open spec fn sends(self, events: Seq<Event<F>>) -> Seq<(Blocking, F)>
        decreases events.len(),
    {
        if events.len() == 0 {
            Seq::empty()
        } else {
            let earlier = self.sends(events.drop_last());
            match events.last() {
                Event::Send(block, future) => if self.after_all(
                    events.drop_last(),
                ).executor.interface.open {
                    earlier.push((block, future))
                } else {
                    earlier
                },
                _ => earlier,
            }
        }
    }
}

/// Whether the executor does not end in the course of `events`.
pub open spec fn keeps_running<F>(events: Seq<Event<F>>) -> bool {
    forall|i: int| 0 <= i < events.len() ==> !((#[trigger] events[i]) is End)
}

/// Blocking on a future stops all others from the moment that it is received: until a poll of
/// it is ready, that is, as long as the task made of it is unfinished, no task is picked that
/// does not block.
pub proof fn only_blocking_tasks_are_picked<F>(
    world: World<F>,
    events: Seq<Event<F>>,
    task: Arc<Task<F>>,
)
    requires
        world.accounted(),
        blocking_first(world.executor.runtime.queue),
        handles(world.executor).contains(task),
        task.block is Blocking,
        world.admits_all(events),
        events.len() > 0 ==> world.after_all(events.drop_last()).executor.is_unfinished(task.tag),
    ensures
        forall|i: int|
            0 <= i < world.picks(events).len() ==> (#[trigger] world.picks(events)[i]).block
                is Blocking,
    decreases events.len(),
{
    let first = handles(world.executor).index_of(task);
    assert(world.knows(handles(world.executor)[first]));
    if events.len() > 0 {
        let earlier = events.drop_last();
        let before = world.after_all(earlier);
        assert(world.admits_all(earlier));
        if earlier.len() > 0 {
            let sooner = world.after_all(earlier.drop_last());
            tags_only_grow(world, earlier.drop_last());
            lemma_history_keeps_books(world, earlier.drop_last());
            unfinished_until_ready(sooner, earlier.last(), task.tag);
        }
        only_blocking_tasks_are_picked(world, earlier, task);
        if events.last() is NextTask {
            lemma_history_keeps_books(world, earlier);
            lemma_tag_keeps_task(world, earlier, task);
            let queued = before.executor.queue_all();
            let queue = queued.runtime.queue;
            lemma_queue_all_holds(before.executor, task.tag);
            assert(has_tag(queue, task.tag));
            let i = choose|i: int| 0 <= i < queue.len() && (#[trigger] queue[i]).tag == task.tag;
            lemma_queue_all_known(before);
            let later = World {
                executor: queued,
                live: before.live_after_queue_all(),
                outside: before.outside,
            };
            assert(handles(queued)[i] == queue[i]);
            assert(later.knows(queue[i]));
            assert(queue[i] == task);
            lemma_requeued_all_blocking_first(
                before.executor.runtime.queue,
                new_tasks(before.executor.interface.sent, before.executor.runtime.tags),
            );
            assert(queue[0].block is Blocking) by {
                if i > 0 {
                    assert(queue[i].block is Blocking);
                }
            }
        }
    }
}

/// The books stay right over any number of events, and so does the order of the queue.
proof fn lemma_history_keeps_books<F>(world: World<F>, events: Seq<Event<F>>)
    requires
        world.accounted(),
        world.admits_all(events),
    ensures
        world.after_all(events).accounted(),
        blocking_first(world.executor.runtime.queue) ==> blocking_first(
            world.after_all(events).executor.runtime.queue,
        ),
    decreases events.len(),
{
    if events.len() > 0 {
        let before = world.after_all(events.drop_last());
        lemma_history_keeps_books(world, events.drop_last());
        books_stay_right(before, events.last());
        if blocking_first(world.executor.runtime.queue) {
            blocking_tasks_stay_first(before, events.last());
        }
    }
}

/// As long as the executor holds a task, its tag stands for that task.
proof fn lemma_tag_keeps_task<F>(world: World<F>, events: Seq<Event<F>>, task: Arc<Task<F>>)
    requires
        world.accounted(),
        world.admits_all(events),
        world.knows(task),
        world.after_all(events).executor.holds(task.tag),
    ensures
        world.after_all(events).knows(task),
{
    let later = world.after_all(events);
    lemma_history_keeps_books(world, events);
    lemma_holds_is_handle(later.executor, task.tag);
    let i = choose|i: int|
        0 <= i < handles(later.executor).len() && (#[trigger] handles(later.executor)[i]).tag
            == task.tag;
    assert(later.knows(handles(later.executor)[i]));
    tags_are_never_used_again(world, events, task.tag as int);
}

/// When waiting is over, every future that was sent to an executor that keeps running was
/// received, and a poll of it was ready.
pub proof fn waiting_ends_when_all_is_ready<F>(events: Seq<Event<F>>)
    requires
        new_world::<F>().admits_all(events),
        keeps_running(events),
        new_world::<F>().sends(events).len() <= usize::MAX,
        new_world::<F>().after_all(events).executor.interface.tasks == 0,
    ensures
        new_world::<F>().after_all(events).executor.runtime.tags == new_world::<F>().sends(
            events,
        ).len(),
        forall|tag: int|
            0 <= tag < new_world::<F>().sends(events).len() ==> #[trigger] new_world::<
                F,
            >().readied(events).contains(tag),
{
    let world = new_world::<F>().after_all(events);
    books_are_right(events);
    lemma_received_and_sent(events);
    let tags = world.executor.runtime.tags as int;
    let range = vstd::set_lib::set_int_range(0, tags);
    vstd::set_lib::lemma_int_range(0, tags);
    vstd::set_lib::lemma_len_subset(world.live.dom(), range);
    waiting_ends_when_all_is_done(world);
    assert forall|tag: int| 0 <= tag < tags implies #[trigger] new_world::<F>().readied(
        events,
    ).contains(tag) by {
        lemma_unfinished_or_ready(events, tag as usize);
        lemma_holds_is_handle(world.executor, tag as usize);
    }
}

/// If the executor does not end in the course of all of `events`, it does not in the course of
/// those before the last.
proof fn lemma_keeps_running_before<F>(events: Seq<Event<F>>)
    requires
        keeps_running(events),
        events.len() > 0,
    ensures
        keeps_running(events.drop_last()),
        !(events.last() is End),
{
    let earlier = events.drop_last();
    assert forall|i: int| 0 <= i < earlier.len() implies !((#[trigger] earlier[i]) is End) by {
        assert(earlier[i] == events[i]);
    }
    assert(!(events[events.len() - 1] is End));
}

/// While an executor runs, each future that was sent was either received or is still to be.
proof fn lemma_received_and_sent<F>(events: Seq<Event<F>>)
    requires
        new_world::<F>().admits_all(events),
        keeps_running(events),
    ensures
        ({
            let executor = new_world::<F>().after_all(events).executor;
            &&& executor.interface.open
            &&& executor.last_number() == new_world::<F>().sends(events).len()
        }),
    decreases events.len(),
{
    if events.len() > 0 {
        lemma_keeps_running_before(events);
        lemma_received_and_sent(events.drop_last());
    }
}

/// Every task that was made is unfinished until a poll of it is ready.
proof fn lemma_unfinished_or_ready<F>(events: Seq<Event<F>>, tag: usize)
    requires
        new_world::<F>().admits_all(events),
        tag < new_world::<F>().after_all(events).executor.runtime.tags,
    ensures
        new_world::<F>().after_all(events).executor.is_unfinished(tag) || new_world::<F>().readied(
            events,
        ).contains(tag as int),
    decreases events.len(),
{
    if events.len() > 0 {
        let earlier = events.drop_last();
        let before = new_world::<F>().after_all(earlier);
        books_are_right(earlier);
        unfinished_until_ready(before, events.last(), tag);
        if tag < before.executor.runtime.tags {
            lemma_unfinished_or_ready(earlier, tag);
        }
    }
}

/// A future is received once its number is settled: if the executor still runs and has settled
/// the number of futures that had been sent at some earlier time, then each of those has become a
/// task, and only later ones are still to be received.
pub proof fn settled_futures_are_received<F>(events: Seq<Event<F>>, n: int)
    requires
        new_world::<F>().admits_all(events),
        0 <= n <= events.len(),
        new_world::<F>().after_all(events.take(n)).executor.interface.open,
        new_world::<F>().after_all(events).executor.interface.open,
        new_world::<F>().after_all(events).executor.is_settled(
            new_world::<F>().after_all(events.take(n)).executor.last_number(),
        ),
    ensures
        ({
            let earlier = new_world::<F>().sends(events.take(n));
            let all = new_world::<F>().sends(events);
            let executor = new_world::<F>().after_all(events).executor;
            &&& earlier.is_prefix_of(all)
            &&& earlier.len() <= executor.runtime.tags
            &&& executor.interface.sent == all.skip(executor.runtime.tags as int)
        }),
{
    lemma_sends_before(events, n);
    tags_follow_sends(events.take(n));
    tags_follow_sends(events);
}

/// What happens first can happen, and what is sent then is sent first.
proof fn lemma_sends_before<F>(events: Seq<Event<F>>, n: int)
    requires
        new_world::<F>().admits_all(events),
        0 <= n <= events.len(),
    ensures
        new_world::<F>().admits_all(events.take(n)),
        new_world::<F>().sends(events.take(n)).is_prefix_of(new_world::<F>().sends(events)),
    decreases events.len(),
{
    if n == events.len() {
        assert(events.take(n) =~= events);
    } else {
        lemma_sends_before(events.drop_last(), n);
        assert(events.drop_last().take(n) =~= events.take(n));
    }
}

/// Tags follow the order in which futures were sent: the task with a tag is made of the future
/// that was sent as the one with that number, counted from zero. What is still to be received
/// are the futures that were sent after those that have become tasks.
pub proof fn tags_follow_sends<F>(events: Seq<Event<F>>)
    requires
        new_world::<F>().admits_all(events),
    ensures
        ({
            let world = new_world::<F>().after_all(events);
            let sends = new_world::<F>().sends(events);
            let tags = world.executor.runtime.tags as int;
            &&& tags <= sends.len()
            &&& world.executor.interface.open ==> world.executor.interface.sent == sends.skip(tags)
            &&& forall|tag: int| #[trigger]
                world.live.contains_key(tag) ==> 0 <= tag < tags && world.live[tag] == Arc::new(
                    Task { future: sends[tag].1, block: sends[tag].0, tag: tag as usize },
                )
        }),
    decreases events.len(),
{
    let world = new_world::<F>().after_all(events);
    let sends = new_world::<F>().sends(events);
    let tags = world.executor.runtime.tags as int;
    if events.len() == 0 {
        assert(world.executor.interface.sent =~= sends.skip(0));
    } else {
        let earlier = events.drop_last();
        let before = new_world::<F>().after_all(earlier);
        let sent_before = new_world::<F>().sends(earlier);
        tags_follow_sends(earlier);
        books_are_right(earlier);
        if world.executor.interface.open {
            assert(world.executor.interface.sent =~= sends.skip(tags));
        }
        assert forall|tag: int| #[trigger] world.live.contains_key(tag) implies 0 <= tag < tags
            && world.live[tag] == Arc::new(
            Task { future: sends[tag].1, block: sends[tag].0, tag: tag as usize },
        ) by {
            if before.live.contains_key(tag) {
                assert(sends[tag] == sent_before[tag]);
            } else {
                let first = before.executor.runtime.tags as int;
                assert(before.executor.interface.sent[tag - first] == sends[tag]);
            }
        }
    }
}

/// What was received is settled: when a task was just picked, the number of each future that had
/// been sent by then is settled.
pub proof fn received_futures_are_settled<F>(events: Seq<Event<F>>, number: int)
    requires
        new_world::<F>().admits_all(events),
        events.len() > 0,
        events.last() is NextTask,
        number <= new_world::<F>().sends(events).len(),
    ensures
        new_world::<F>().after_all(events).executor.is_settled(number),
{
    let executor = new_world::<F>().after_all(events).executor;
    tags_follow_sends(events);
    assert(executor.interface.sent.len() == 0);
    assert(executor.interface.sent == new_world::<F>().sends(events).skip(
        executor.runtime.tags as int,
    ));
}

/// What is settled stays settled, whatever happens.
pub proof fn settled_numbers_stay_settled<F>(
    world: World<F>,
    events: Seq<Event<F>>,
    number: int,
)
    requires
        world.admits_all(events),
        world.executor.is_settled(number),
    ensures
        world.after_all(events).executor.is_settled(number),
    decreases events.len(),
{
    if events.len() > 0 {
        settled_numbers_stay_settled(world, events.drop_last(), number);
    }
}

} // verus!
