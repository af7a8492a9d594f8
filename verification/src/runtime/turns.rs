//! In which order tasks get their turns while futures arrive and tasks that block step in.
use crate::futures::Poll;
use crate::runtime::executor::ExecutorState;
use crate::runtime::fairness::distinct_tags;
use crate::runtime::history::books_are_right;
use crate::runtime::history::books_stay_right;
use crate::runtime::history::handles;
use crate::runtime::history::new_world;
use crate::runtime::history::tags_follow_sends;
use crate::runtime::history::Event;
use crate::runtime::history::World;
use crate::runtime::new_tasks;
use crate::runtime::order::requeue_all_keeps_tags;
use crate::runtime::queue::has_tag;
use crate::runtime::queue::nonblocking;
use crate::runtime::queue::requeued;
use crate::runtime::queue::requeued_all;
use crate::runtime::queue::requeued_all_push;
use crate::runtime::queue::without_tag;
use crate::runtime::task::Blocking;
use crate::runtime::task::Task;
use std::sync::Arc;
use vstd::prelude::*;

verus! {

/// Whether nobody wakes a task in the course of `events`.
pub open spec fn no_wakes<F>(events: Seq<Event<F>>) -> bool {
    forall|i: int| 0 <= i < events.len() ==> !((#[trigger] events[i]) is Wake)
}

/// What holds of all of `events` holds of those before the last.
pub proof fn lemma_no_wakes_before<F>(events: Seq<Event<F>>)
    requires
        no_wakes(events),
        events.len() > 0,
    ensures
        no_wakes(events.drop_last()),
        !(events.last() is Wake),
{
    let earlier = events.drop_last();
    assert forall|i: int| 0 <= i < earlier.len() implies !((#[trigger] earlier[i]) is Wake) by {
        assert(earlier[i] == events[i]);
    }
    assert(!(events[events.len() - 1] is Wake));
}

/// One task more among the others, at either end, is one more among those that do not block if
/// it does not block.
proof fn lemma_nonblocking_one<F>(tasks: Seq<Arc<Task<F>>>, task: Arc<Task<F>>)
    ensures
        nonblocking(tasks.push(task)) == if task.block is NonBlocking {
            nonblocking(tasks).push(task)
        } else {
            nonblocking(tasks)
        },
        nonblocking(seq![task] + tasks) == if task.block is NonBlocking {
            seq![task] + nonblocking(tasks)
        } else {
            nonblocking(tasks)
        },
{
    let keep = |task: Arc<Task<F>>| task.block is NonBlocking;
    Seq::filter_distributes_over_add(seq![task], tasks, keep);
    reveal_with_fuel(Seq::filter, 2);
    assert(tasks.push(task).drop_last() =~= tasks);
    assert(seq![task].drop_last() =~= Seq::empty());
    if task.block is NonBlocking {
        assert(seq![task].filter(keep) =~= seq![task]);
    } else {
        assert(seq![task].filter(keep) =~= Seq::empty());
        assert(Seq::<Arc<Task<F>>>::empty() + tasks.filter(keep) =~= tasks.filter(keep));
    }
}

/// Of those on the queue that do not block, arrivals stand last.
proof fn lemma_nonblocking_requeued_all<F>(
    tasks: Seq<Arc<Task<F>>>,
    arrivals: Seq<Arc<Task<F>>>,
)
    ensures
        nonblocking(requeued_all(tasks, arrivals)) == nonblocking(tasks) + nonblocking(arrivals),
    decreases arrivals.len(),
{
    if arrivals.len() == 0 {
        reveal(Seq::filter);
        assert(requeued_all(tasks, arrivals) =~= tasks);
        assert(nonblocking(tasks) + nonblocking(arrivals) =~= nonblocking(tasks));
    } else {
        let earlier = arrivals.drop_last();
        let last = arrivals.last();
        assert(arrivals =~= earlier.push(last));
        requeued_all_push(tasks, earlier, last);
        lemma_nonblocking_requeued_all(tasks, earlier);
        lemma_nonblocking_one(requeued_all(tasks, earlier), last);
        lemma_nonblocking_one(earlier, last);
        assert((nonblocking(tasks) + nonblocking(earlier)).push(last) =~= nonblocking(tasks)
            + nonblocking(earlier).push(last));
    }
}

/// The executor keeps one handle to each task as long as nobody wakes one.
pub proof fn one_handle_to_each_task<F>(world: World<F>, event: Event<F>)
    requires
        world.accounted(),
        distinct_tags(handles(world.executor)),
        world.admits(event),
        !(event is Wake),
    ensures
        distinct_tags(handles(world.after(event).executor)),
{
    let executor = world.executor;
    let later = world.after(event).executor;
    let queue = executor.runtime.queue;
    let fresh = new_tasks(executor.interface.sent, executor.runtime.tags);
    lemma_queue_tags(world);
    match event {
        Event::NextTask => {
            lemma_fresh_tags(world);
            lemma_distinct_requeued_all(queue, fresh);
            assert(handles(later) =~= requeued_all(queue, fresh));
        },
        Event::FinishPoll(outcome) => {
            let task = executor.current.unwrap();
            if outcome is Ready {
                without_tag(queue, task.tag);
            } else if executor.polls_again(outcome) {
                lemma_fresh_tags(world);
                lemma_distinct_requeued_all(queue, fresh);
                requeue_all_keeps_tags(queue, fresh, task.tag);
                assert(handles(executor)[0] == task);
                assert(world.knows(task));
                let all = requeued_all(queue, fresh);
                if has_tag(fresh, task.tag) {
                    let i = choose|i: int|
                        0 <= i < fresh.len() && (#[trigger] fresh[i]).tag == task.tag;
                    assert(fresh[i].tag >= executor.runtime.tags);
                }
                assert forall|i: int, j: int| 0 <= i < j < handles(later).len() implies (
                #[trigger] handles(later)[i]).tag != (#[trigger] handles(later)[j]).tag by {
                    assert(handles(later)[j] == all[j - 1]);
                    if i > 0 {
                        assert(handles(later)[i] == all[i - 1]);
                    }
                }
            } else {
                assert(handles(later) =~= queue.push(task));
                assert forall|i: int, j: int| 0 <= i < j < handles(later).len() implies (
                #[trigger] handles(later)[i]).tag != (#[trigger] handles(later)[j]).tag by {
                    assert(handles(later)[i] == queue[i]);
                    if j < queue.len() {
                        assert(handles(later)[j] == queue[j]);
                    }
                }
            }
        },
        _ => {},
    }
}

/// In every state that an executor can reach while nobody wakes a task, no two of its handles
/// have the same tag.
pub proof fn handles_are_distinct<F>(events: Seq<Event<F>>)
    requires
        new_world::<F>().admits_all(events),
        no_wakes(events),
    ensures
        distinct_tags(handles(new_world::<F>().after_all(events).executor)),
    decreases events.len(),
{
    if events.len() > 0 {
        lemma_no_wakes_before(events);
        handles_are_distinct(events.drop_last());
        books_are_right(events.drop_last());
        one_handle_to_each_task(new_world::<F>().after_all(events.drop_last()), events.last());
    }
}

/// If no two handles have the same tag, then no two tasks on the queue have, nor has one there
/// the tag of the task that is being polled.
pub proof fn lemma_queue_tags<F>(world: World<F>)
    requires
        distinct_tags(handles(world.executor)),
    ensures
        distinct_tags(world.executor.runtime.queue),
        world.executor.current matches Some(task) ==> !has_tag(
            world.executor.runtime.queue,
            task.tag,
        ),
{
    let all = handles(world.executor);
    let queue = world.executor.runtime.queue;
    let shift: int = if world.executor.current is Some { 1 } else { 0 };
    assert forall|i: int, j: int| 0 <= i < j < queue.len() implies (#[trigger] queue[i]).tag != (
    #[trigger] queue[j]).tag by {
        assert(all[i + shift] == queue[i] && all[j + shift] == queue[j]);
    }
    if world.executor.current is Some {
        assert forall|i: int| 0 <= i < queue.len() implies (#[trigger] queue[i]).tag != all[0].tag by {
            assert(all[i + 1] == queue[i]);
        }
    }
}

/// The tags of new tasks differ from one another and from those of all tasks on the queue.
proof fn lemma_fresh_tags<F>(world: World<F>)
    requires
        world.accounted(),
        world.executor.has_tags(),
    ensures
        ({
            let fresh = new_tasks(
                world.executor.interface.sent,
                world.executor.runtime.tags,
            );
            &&& distinct_tags(fresh)
            &&& forall|i: int|
                0 <= i < fresh.len() ==> (#[trigger] fresh[i]).tag == world.executor.runtime.tags
                    + i
            &&& forall|i: int|
                0 <= i < fresh.len() ==> !has_tag(
                    world.executor.runtime.queue,
                    (#[trigger] fresh[i]).tag,
                )
        }),
{
    let queue = world.executor.runtime.queue;
    let fresh = new_tasks(world.executor.interface.sent, world.executor.runtime.tags);
    let shift: int = if world.executor.current is Some { 1 } else { 0 };
    assert forall|i: int| 0 <= i < fresh.len() implies !has_tag(
        queue,
        (#[trigger] fresh[i]).tag,
    ) by {
        assert forall|j: int| 0 <= j < queue.len() implies (#[trigger] queue[j]).tag
            != fresh[i].tag by {
            assert(handles(world.executor)[j + shift] == queue[j]);
            assert(world.knows(handles(world.executor)[j + shift]));
        }
    }
}

/// Arrivals with tags of their own leave the tags on the queue distinct.
proof fn lemma_distinct_requeued_all<F>(tasks: Seq<Arc<Task<F>>>, arrivals: Seq<Arc<Task<F>>>)
    requires
        distinct_tags(tasks),
        distinct_tags(arrivals),
        forall|i: int|
            0 <= i < arrivals.len() ==> !has_tag(tasks, (#[trigger] arrivals[i]).tag),
    ensures
        distinct_tags(requeued_all(tasks, arrivals)),
    decreases arrivals.len(),
{
    if arrivals.len() == 0 {
        reveal(Seq::filter);
        assert(requeued_all(tasks, arrivals) =~= tasks);
    } else {
        let earlier = arrivals.drop_last();
        let last = arrivals.last();
        let before = requeued_all(tasks, earlier);
        assert(arrivals =~= earlier.push(last));
        assert forall|i: int| 0 <= i < earlier.len() implies !has_tag(
            tasks,
            (#[trigger] earlier[i]).tag,
        ) && earlier[i].tag != last.tag by {
            assert(earlier[i] == arrivals[i]);
            assert(arrivals[arrivals.len() - 1] == last);
        }
        assert(distinct_tags(earlier)) by {
            assert forall|i: int, j: int| 0 <= i < j < earlier.len() implies (
            #[trigger] earlier[i]).tag != (#[trigger] earlier[j]).tag by {
                assert(earlier[i] == arrivals[i] && earlier[j] == arrivals[j]);
            }
        }
        lemma_distinct_requeued_all(tasks, earlier);
        requeued_all_push(tasks, earlier, last);
        requeue_all_keeps_tags(tasks, earlier, last.tag);
        assert(!has_tag(tasks, arrivals[arrivals.len() - 1].tag));
        assert(!has_tag(before, last.tag));
        let all = requeued(before, last);
        assert forall|i: int, j: int| 0 <= i < j < all.len() implies (#[trigger] all[i]).tag != (
        #[trigger] all[j]).tag by {
            if last.block is Blocking {
                assert(all[j] == before[j - 1]);
                if i > 0 {
                    assert(all[i] == before[i - 1]);
                }
            } else {
                assert(all[i] == before[i]);
                if j < before.len() {
                    assert(all[j] == before[j]);
                }
            }
        }
    }
}

/// What picking a task does to those that do not block: arrivals go to the end, and either a
/// task that blocks is picked, or the first of these is.
proof fn lemma_nonblocking_next_task<F>(executor: ExecutorState<F>)
    ensures
        ({
            let fresh = new_tasks(executor.interface.sent, executor.runtime.tags);
            let waiting = nonblocking(executor.runtime.queue) + nonblocking(fresh);
            let later = executor.next_task();
            match later.current {
                Some(task) => if task.block is NonBlocking {
                    waiting == seq![task] + nonblocking(later.runtime.queue)
                } else {
                    waiting == nonblocking(later.runtime.queue)
                },
                None => waiting == nonblocking(later.runtime.queue),
            }
        }),
{
    let fresh = new_tasks(executor.interface.sent, executor.runtime.tags);
    let all = executor.queue_all().runtime.queue;
    lemma_nonblocking_requeued_all(executor.runtime.queue, fresh);
    if all.len() > 0 {
        assert(all =~= seq![all.first()] + all.drop_first());
        lemma_nonblocking_one(all.drop_first(), all.first());
    }
}

/// What any other event does to the tasks that wait and do not block: nothing, but that the
/// current task lines up behind them if it is pending, and arrivals do.
proof fn lemma_nonblocking_other_event<F>(world: World<F>, event: Event<F>)
    requires
        distinct_tags(handles(world.executor)),
        world.admits(event),
        !(event is Wake),
        !(event is NextTask),
    ensures
        ({
            let before = nonblocking(world.executor.runtime.queue);
            let after = nonblocking(world.after(event).executor.runtime.queue);
            let fresh = new_tasks(
                world.executor.interface.sent,
                world.executor.runtime.tags,
            );
            match event {
                Event::FinishPoll(outcome) => if outcome is Ready {
                    after == before
                } else if world.executor.polls_again(outcome) {
                    after == before + nonblocking(fresh)
                } else {
                    after == before.push(world.executor.current.unwrap())
                },
                _ => after == before,
            }
        }),
{
    let executor = world.executor;
    let queue = executor.runtime.queue;
    lemma_queue_tags(world);
    match event {
        Event::FinishPoll(outcome) => {
            let task = executor.current.unwrap();
            without_tag(queue, task.tag);
            lemma_nonblocking_requeued_all(
                queue,
                new_tasks(executor.interface.sent, executor.runtime.tags),
            );
            lemma_nonblocking_one(queue, task);
        },
        _ => {},
    }
}

/// Tasks that wait and do not block are picked in the order in which they wait: whatever arrives
/// in the meantime, and whatever tasks that block step in, the next picks among the tasks that
/// do not block are those that wait now, one after the other, until each had its turn.
pub proof fn waiting_tasks_are_picked_in_order<F>(world: World<F>, events: Seq<Event<F>>)
    requires
        world.accounted(),
        distinct_tags(handles(world.executor)),
        world.admits_all(events),
        no_wakes(events),
    ensures
        ({
            let waiting = nonblocking(world.executor.runtime.queue);
            let picked = nonblocking(world.picks(events));
            let left = nonblocking(world.after_all(events).executor.runtime.queue);
            if picked.len() <= waiting.len() {
                &&& picked == waiting.take(picked.len() as int)
                &&& waiting.skip(picked.len() as int).is_prefix_of(left)
            } else {
                picked.take(waiting.len() as int) == waiting
            }
        }),
        world.after_all(events).accounted(),
        distinct_tags(handles(world.after_all(events).executor)),
    decreases events.len(),
{
    let waiting = nonblocking(world.executor.runtime.queue);
    let picked = nonblocking(world.picks(events));
    let left = nonblocking(world.after_all(events).executor.runtime.queue);
    if events.len() == 0 {
        reveal(Seq::filter);
        assert(picked =~= waiting.take(0));
        assert(waiting.skip(0) =~= waiting);
    } else {
        let earlier = events.drop_last();
        let event = events.last();
        let before = world.after_all(earlier);
        let picked_before = nonblocking(world.picks(earlier));
        let left_before = nonblocking(before.executor.runtime.queue);
        lemma_no_wakes_before(events);
        waiting_tasks_are_picked_in_order(world, earlier);
        books_stay_right(before, event);
        one_handle_to_each_task(before, event);
        let fresh = new_tasks(
            before.executor.interface.sent,
            before.executor.runtime.tags,
        );
        let n = picked_before.len() as int;
        if event is NextTask {
            lemma_nonblocking_next_task(before.executor);
            let all = left_before + nonblocking(fresh);
            match before.after(event).executor.current {
                Some(task) => {
                    lemma_nonblocking_one(world.picks(earlier), task);
                    if n <= waiting.len() {
                        assert(waiting.skip(n).is_prefix_of(all));
                        if task.block is NonBlocking {
                            assert(all[0] == task);
                            assert(all.drop_first() =~= left);
                            if n < waiting.len() {
                                assert(waiting.skip(n)[0] == all[0]);
                                assert(picked =~= waiting.take(n + 1));
                                assert(waiting.skip(n + 1) =~= waiting.skip(n).drop_first());
                                assert(waiting.skip(n + 1).is_prefix_of(left)) by {
                                    assert forall|i: int| 0 <= i < waiting.len() - n - 1 implies
                                        waiting.skip(n + 1)[i] == left[i] by {
                                        assert(waiting.skip(n)[i + 1] == all[i + 1]);
                                    }
                                }
                            } else {
                                assert(picked.take(waiting.len() as int) =~= waiting);
                            }
                        }
                    } else {
                        assert(picked.take(waiting.len() as int) =~= picked_before.take(
                            waiting.len() as int,
                        ));
                    }
                },
                None => {
                    if n <= waiting.len() {
                        assert(waiting.skip(n).is_prefix_of(all));
                    }
                },
            }
        } else {
            lemma_nonblocking_other_event(before, event);
            if n <= waiting.len() {
                assert(waiting.skip(n).is_prefix_of(left));
            }
        }
    }
}

/// Turns are fair: between two polls of a pending task that does not block, each other task that
/// does not block and waited at the first of these polls is picked exactly once, in the order of
/// the queue, and no other task that does not block is. Futures may arrive in the meantime, and
/// tasks that block may step in.
pub proof fn turns_are_fair<F>(world: World<F>, task: Arc<Task<F>>, events: Seq<Event<F>>)
    requires
        world.accounted(),
        distinct_tags(handles(world.executor)),
        world.executor.current == Some(task),
        task.block is NonBlocking,
        world.after(Event::FinishPoll(Poll::Pending)).admits_all(events),
        no_wakes(events),
        events.len() > 0,
        events.last() is NextTask,
        world.after(Event::FinishPoll(Poll::Pending)).after_all(events).executor.current == Some(
            task,
        ),
        !world.after(Event::FinishPoll(Poll::Pending)).picks(events.drop_last()).contains(task),
    ensures
        nonblocking(world.after(Event::FinishPoll(Poll::Pending)).picks(events)) == nonblocking(
            world.executor.runtime.queue,
        ).push(task),
{
    let pending = Event::<F>::FinishPoll(Poll::Pending);
    let later = world.after(pending);
    let others = nonblocking(world.executor.runtime.queue);
    let waiting = nonblocking(later.executor.runtime.queue);
    let picks_before = later.picks(events.drop_last());
    let picked_before = nonblocking(picks_before);
    let picked = nonblocking(later.picks(events));
    books_stay_right(world, pending);
    one_handle_to_each_task(world, pending);
    lemma_nonblocking_other_event(world, pending);
    lemma_queue_tags(world);
    waiting_tasks_are_picked_in_order(later, events);
    lemma_nonblocking_one(picks_before, task);
    let keep = |task: Arc<Task<F>>| task.block is NonBlocking;
    assert(picked.last() == task);
    if picked.len() < waiting.len() {
        assert(waiting[picked.len() - 1] == task);
        assert(others[picked.len() - 1] == task);
        assert(others.contains(task));
        world.executor.runtime.queue.lemma_filter_contains_rev(keep, task);
        let i = world.executor.runtime.queue.index_of(task);
        assert(world.executor.runtime.queue[i].tag == task.tag);
    } else if picked.len() > waiting.len() {
        assert(picked[waiting.len() - 1] == waiting[waiting.len() - 1]) by {
            assert(picked.take(waiting.len() as int)[waiting.len() - 1] == waiting[waiting.len()
                - 1]);
        }
        assert(picked_before[waiting.len() - 1] == task);
        assert(picked_before.contains(task));
        picks_before.lemma_filter_contains_rev(keep, task);
    } else {
        assert(waiting.take(waiting.len() as int) =~= waiting);
    }
}

/// Those of new tasks that do not block have tags in order, none of them given out before, and
/// each new task that does not block is among them.
proof fn lemma_nonblocking_fresh<F>(sent: Seq<(Blocking, F)>, tags: usize, count: int)
    requires
        tags + sent.len() <= usize::MAX,
        0 <= count <= sent.len(),
    ensures
        ({
            let some = nonblocking(new_tasks(sent, tags).take(count));
            &&& forall|i: int|
                0 <= i < some.len() ==> tags <= (#[trigger] some[i]).tag < tags + count
            &&& forall|i: int, j: int|
                0 <= i < j < some.len() ==> (#[trigger] some[i]).tag < (#[trigger] some[j]).tag
            &&& forall|i: int|
                0 <= i < count && (#[trigger] sent[i]).0 is NonBlocking ==> has_tag(
                    some,
                    (tags + i) as usize,
                )
        }),
    decreases count,
{
    let fresh = new_tasks(sent, tags);
    let some = nonblocking(fresh.take(count));
    reveal(Seq::filter);
    if count > 0 {
        let last = fresh[count - 1];
        let earlier = nonblocking(fresh.take(count - 1));
        lemma_nonblocking_fresh(sent, tags, count - 1);
        assert(fresh.take(count) =~= fresh.take(count - 1).push(last));
        lemma_nonblocking_one(fresh.take(count - 1), last);
        assert forall|i: int| 0 <= i < count && (#[trigger] sent[i]).0 is NonBlocking implies has_tag(
            some,
            (tags + i) as usize,
        ) by {
            if i < count - 1 {
                let tag = (tags + i) as usize;
                assert(has_tag(earlier, tag));
                let j = choose|j: int| 0 <= j < earlier.len() && (#[trigger] earlier[j]).tag == tag;
                assert(some[j].tag == tag);
            } else {
                assert(some[some.len() - 1].tag == tags + i);
            }
        }
    }
}

/// What holds of the first polls of spawned futures: `picks` are the tasks that were picked so
/// far, `waiting` those that wait and do not block, `sends` the futures that were sent, of which
/// the first `tags` have become tasks.
spec fn first_polls_in_order<F>(
    picks: Seq<Arc<Task<F>>>,
    waiting: Seq<Arc<Task<F>>>,
    sends: Seq<(Blocking, F)>,
    tags: int,
) -> bool {
    &&& tags <= sends.len()
    // Each task that was picked is made of what was sent under its number.
    &&& forall|n: int|
        0 <= n < picks.len() ==> (#[trigger] picks[n]).tag < tags && picks[n].block
            == sends[picks[n].tag as int].0 && picks[n].future == sends[picks[n].tag as int].1
    // A future that was spawned and not yet picked waits.
    &&& forall|tag: usize|
        tag < tags && sends[tag as int].0 is NonBlocking && !has_tag(picks, tag) ==> #[trigger]
            has_tag(waiting, tag)
    // Those that wait to be picked for the first time do so in order.
    &&& forall|i: int, j: int|
        0 <= i < j < waiting.len() && !has_tag(picks, waiting[i].tag) && !has_tag(
            picks,
            waiting[j].tag,
        ) ==> (#[trigger] waiting[i]).tag < (#[trigger] waiting[j]).tag
    &&& forall|i: int| 0 <= i < waiting.len() ==> (#[trigger] waiting[i]).tag < tags
    // Whatever was picked, what was spawned before it was picked before.
    &&& forall|n: int, tag: usize|
        0 <= n < picks.len() && picks[n].block is NonBlocking && tag < picks[n].tag
            && sends[tag as int].0 is NonBlocking ==> #[trigger] has_tag(picks.take(n), tag)
}

/// Futures that arrive keep first polls in order.
proof fn lemma_order_after_arrivals<F>(
    picks: Seq<Arc<Task<F>>>,
    waiting: Seq<Arc<Task<F>>>,
    sends: Seq<(Blocking, F)>,
    tags: usize,
    count: int,
)
    requires
        first_polls_in_order(picks, waiting, sends, tags as int),
        0 <= count <= sends.len() - tags,
        tags + count <= usize::MAX,
    ensures
        first_polls_in_order(
            picks,
            waiting + nonblocking(new_tasks(sends.subrange(tags as int, tags + count), tags)),
            sends,
            tags + count,
        ),
{
    let sent = sends.subrange(tags as int, tags + count);
    let fresh = nonblocking(new_tasks(sent, tags));
    let all = waiting + fresh;
    lemma_nonblocking_fresh(sent, tags, count);
    assert(new_tasks(sent, tags).take(count) =~= new_tasks(sent, tags));
    assert forall|tag: usize|
        tag < tags + count && sends[tag as int].0 is NonBlocking && !has_tag(picks, tag)
        implies #[trigger] has_tag(all, tag) by {
        if tag < tags {
            assert(has_tag(waiting, tag));
            let i = choose|i: int| 0 <= i < waiting.len() && (#[trigger] waiting[i]).tag == tag;
            assert(all[i].tag == tag);
        } else {
            assert(sent[tag - tags].0 is NonBlocking);
            assert(has_tag(fresh, tag));
            let i = choose|i: int| 0 <= i < fresh.len() && (#[trigger] fresh[i]).tag == tag;
            assert(all[waiting.len() + i].tag == tag);
        }
    }
    assert forall|i: int, j: int|
        0 <= i < j < all.len() && !has_tag(picks, all[i].tag) && !has_tag(picks, all[j].tag)
        implies (#[trigger] all[i]).tag < (#[trigger] all[j]).tag by {
        let len = waiting.len() as int;
        if j < len {
            assert(waiting[i].tag < waiting[j].tag);
        } else if i < len {
            assert(waiting[i].tag < tags <= fresh[j - len].tag);
        } else {
            assert(fresh[i - len].tag < fresh[j - len].tag);
        }
    }
    assert forall|i: int| 0 <= i < all.len() implies (#[trigger] all[i]).tag < tags + count by {
        if i >= waiting.len() {
            assert(fresh[i - waiting.len()].tag < tags + count);
        } else {
            assert(waiting[i].tag < tags);
        }
    }
}

/// Picking the first of those that wait, or a task that blocks, keeps first polls in order.
proof fn lemma_order_after_pick<F>(
    picks: Seq<Arc<Task<F>>>,
    waiting: Seq<Arc<Task<F>>>,
    sends: Seq<(Blocking, F)>,
    tags: int,
    task: Arc<Task<F>>,
)
    requires
        first_polls_in_order(
            picks,
            if task.block is NonBlocking {
                seq![task] + waiting
            } else {
                waiting
            },
            sends,
            tags,
        ),
        task.tag < tags,
        task.block == sends[task.tag as int].0,
        task.future == sends[task.tag as int].1,
    ensures
        first_polls_in_order(picks.push(task), waiting, sends, tags),
{
    let before = if task.block is NonBlocking {
        seq![task] + waiting
    } else {
        waiting
    };
    let shift: int = if task.block is NonBlocking { 1 } else { 0 };
    let all = picks.push(task);
    assert forall|tag: usize|
        tag < tags && sends[tag as int].0 is NonBlocking && !has_tag(all, tag)
        implies #[trigger] has_tag(waiting, tag) by {
        lemma_has_tag_push(picks, task, tag);
        assert(has_tag(before, tag));
        let i = choose|i: int| 0 <= i < before.len() && (#[trigger] before[i]).tag == tag;
        assert(waiting[i - shift].tag == tag);
    }
    assert forall|i: int, j: int|
        0 <= i < j < waiting.len() && !has_tag(all, waiting[i].tag) && !has_tag(
            all,
            waiting[j].tag,
        ) implies (#[trigger] waiting[i]).tag < (#[trigger] waiting[j]).tag by {
        lemma_has_tag_push(picks, task, waiting[i].tag);
        lemma_has_tag_push(picks, task, waiting[j].tag);
        assert(before[i + shift] == waiting[i] && before[j + shift] == waiting[j]);
        assert(before[i + shift].tag < before[j + shift].tag);
    }
    assert forall|i: int| 0 <= i < waiting.len() implies (#[trigger] waiting[i]).tag < tags by {
        assert(before[i + shift] == waiting[i]);
    }
    assert forall|n: int, tag: usize|
        0 <= n < all.len() && all[n].block is NonBlocking && tag < all[n].tag
            && sends[tag as int].0 is NonBlocking implies #[trigger] has_tag(all.take(n), tag) by {
        if n < picks.len() {
            assert(all.take(n) =~= picks.take(n));
            assert(all[n] == picks[n]);
            assert(has_tag(picks.take(n), tag));
        } else {
            assert(all.take(n) =~= picks);
            if !has_tag(picks, tag) {
                assert(has_tag(before, tag));
                let i = choose|i: int| 0 <= i < before.len() && (#[trigger] before[i]).tag == tag;
                assert(before[0] == task);
                if has_tag(picks, task.tag) {
                    let m = choose|m: int|
                        0 <= m < picks.len() && (#[trigger] picks[m]).tag == task.tag;
                    assert(picks[m].block is NonBlocking);
                    assert(has_tag(picks.take(m), tag));
                    lemma_has_tag_take(picks, m, tag);
                } else {
                    assert(before[0].tag < before[i].tag);
                }
            }
        }
    }
}

/// A task that was picked before and lines up again keeps first polls in order.
proof fn lemma_order_after_requeue<F>(
    picks: Seq<Arc<Task<F>>>,
    waiting: Seq<Arc<Task<F>>>,
    sends: Seq<(Blocking, F)>,
    tags: int,
    task: Arc<Task<F>>,
)
    requires
        first_polls_in_order(picks, waiting, sends, tags),
        has_tag(picks, task.tag),
    ensures
        first_polls_in_order(picks, waiting.push(task), sends, tags),
{
    let all = waiting.push(task);
    let m = choose|m: int| 0 <= m < picks.len() && (#[trigger] picks[m]).tag == task.tag;
    assert(picks[m].tag < tags);
    assert forall|tag: usize|
        tag < tags && sends[tag as int].0 is NonBlocking && !has_tag(picks, tag)
        implies #[trigger] has_tag(all, tag) by {
        lemma_has_tag_push(waiting, task, tag);
        assert(has_tag(waiting, tag));
    }
    assert forall|i: int, j: int|
        0 <= i < j < all.len() && !has_tag(picks, all[i].tag) && !has_tag(picks, all[j].tag)
        implies (#[trigger] all[i]).tag < (#[trigger] all[j]).tag by {
        assert(j < waiting.len());
        assert(waiting[i].tag < waiting[j].tag);
    }
}

/// A tag among some tasks is one among more of them.
pub proof fn lemma_has_tag_push<F>(tasks: Seq<Arc<Task<F>>>, task: Arc<Task<F>>, tag: usize)
    ensures
        has_tag(tasks.push(task), tag) == (has_tag(tasks, tag) || task.tag == tag),
{
    let all = tasks.push(task);
    if has_tag(tasks, tag) {
        let i = choose|i: int| 0 <= i < tasks.len() && (#[trigger] tasks[i]).tag == tag;
        assert(all[i].tag == tag);
    } else if task.tag == tag {
        assert(all[all.len() - 1].tag == tag);
    } else if has_tag(all, tag) {
        let i = choose|i: int| 0 <= i < all.len() && (#[trigger] all[i]).tag == tag;
        assert(tasks[i].tag == tag);
    }
}

/// A tag among the first of some tasks is one among all of them.
proof fn lemma_has_tag_take<F>(tasks: Seq<Arc<Task<F>>>, n: int, tag: usize)
    requires
        0 <= n <= tasks.len(),
        has_tag(tasks.take(n), tag),
    ensures
        has_tag(tasks, tag),
{
    let some = tasks.take(n);
    let i = choose|i: int| 0 <= i < some.len() && (#[trigger] some[i]).tag == tag;
    assert(tasks[i].tag == tag);
}

/// First polls are in order in every state that an executor can reach while nobody wakes a task.
#[verifier::rlimit(40)]
proof fn lemma_first_polls_in_order<F>(events: Seq<Event<F>>)
    requires
        new_world::<F>().admits_all(events),
        no_wakes(events),
    ensures
        first_polls_in_order(
            new_world::<F>().picks(events),
            nonblocking(new_world::<F>().after_all(events).executor.runtime.queue),
            new_world::<F>().sends(events),
            new_world::<F>().after_all(events).executor.runtime.tags as int,
        ),
        new_world::<F>().after_all(events).executor.current matches Some(task) ==> has_tag(
            new_world::<F>().picks(events),
            task.tag,
        ),
    decreases events.len(),
{
    if events.len() == 0 {
        reveal(Seq::filter);
    } else {
        let earlier = events.drop_last();
        let event = events.last();
        let before = new_world::<F>().after_all(earlier);
        let later = new_world::<F>().after_all(events);
        let executor = before.executor;
        let picks = new_world::<F>().picks(earlier);
        let sends = new_world::<F>().sends(events);
        let sends_before = new_world::<F>().sends(earlier);
        let waiting = nonblocking(executor.runtime.queue);
        let tags = executor.runtime.tags;
        let sent = executor.interface.sent;
        let fresh = nonblocking(new_tasks(sent, tags));
        lemma_no_wakes_before(events);
        lemma_first_polls_in_order(earlier);
        books_are_right(earlier);
        tags_follow_sends(earlier);
        handles_are_distinct(earlier);
        assert(first_polls_in_order(picks, waiting, sends, tags as int)) by {
            assert(forall|i: int| 0 <= i < sends_before.len() ==> sends_before[i] == sends[i]);
        }
        match event {
            Event::NextTask => {
                assert(sent =~= sends.subrange(tags as int, tags + sent.len()));
                lemma_order_after_arrivals(picks, waiting, sends, tags, sent.len() as int);
                lemma_nonblocking_next_task(executor);
                match later.executor.current {
                    Some(task) => {
                        books_are_right(events);
                        tags_follow_sends(events);
                        assert(handles(later.executor)[0] == task);
                        assert(later.knows(task));
                        lemma_has_tag_push(picks, task, task.tag);
                        lemma_order_after_pick(
                            picks,
                            nonblocking(later.executor.runtime.queue),
                            sends,
                            tags + sent.len(),
                            task,
                        );
                    },
                    None => {},
                }
            },
            Event::FinishPoll(outcome) => {
                lemma_nonblocking_other_event(before, event);
                if executor.polls_again(outcome) {
                    if executor.interface.open {
                        assert(sent =~= sends.subrange(tags as int, tags + sent.len()));
                    } else {
                        assert(sent =~= sends.subrange(tags as int, tags + 0));
                    }
                    lemma_order_after_arrivals(picks, waiting, sends, tags, sent.len() as int);
                } else if outcome is Pending {
                    lemma_order_after_requeue(
                        picks,
                        waiting,
                        sends,
                        tags as int,
                        executor.current.unwrap(),
                    );
                }
            },
            _ => {
                lemma_nonblocking_other_event(before, event);
            },
        }
    }
}

/// Spawned futures are polled for the first time in the order in which they were spawned: if one
/// was spawned before another, then it was picked before each pick of the other. Each pick is of
/// the task made of the future that was sent under its number.
pub proof fn first_polls_follow_spawns<F>(events: Seq<Event<F>>, former: int, latter: int, n: int)
    requires
        new_world::<F>().admits_all(events),
        no_wakes(events),
        0 <= former < latter < new_world::<F>().sends(events).len(),
        new_world::<F>().sends(events)[former].0 is NonBlocking,
        new_world::<F>().sends(events)[latter].0 is NonBlocking,
        0 <= n < new_world::<F>().picks(events).len(),
        new_world::<F>().picks(events)[n].tag == latter,
    ensures
        new_world::<F>().picks(events)[n].future == new_world::<F>().sends(events)[latter].1,
        exists|m: int|
            0 <= m < n && (#[trigger] new_world::<F>().picks(events)[m]).tag == former
                && new_world::<F>().picks(events)[m].future == new_world::<F>().sends(
                events,
            )[former].1,
{
    let picks = new_world::<F>().picks(events);
    lemma_first_polls_in_order(events);
    assert(picks[n].block is NonBlocking);
    let some = picks.take(n);
    let tag = former as usize;
    assert(has_tag(some, tag));
    let m = choose|m: int| 0 <= m < some.len() && (#[trigger] some[m]).tag == tag;
    assert(picks[m].tag == former);
}

} // verus!
