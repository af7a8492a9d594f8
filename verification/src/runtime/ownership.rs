//! Who has handles to a task, and when it can be dropped.
use crate::futures::Poll;
use crate::runtime::history::handles;
use crate::runtime::history::lemma_holds_is_handle;
use crate::runtime::history::ready_task_is_finished;
use crate::runtime::history::Event;
use crate::runtime::history::World;
use crate::runtime::new_tasks;
use crate::runtime::queue::has_tag;
use crate::runtime::queue::requeued_all;
use crate::runtime::queue::requeued_all_push;
use crate::runtime::queue::without_tag;
use crate::runtime::task::Task;
use std::sync::Arc;
use vstd::prelude::*;

verus! {

/// How many of `tasks` have the tag `tag`.
pub open spec fn count_tag<F>(tasks: Seq<Arc<Task<F>>>, tag: usize) -> nat {
    tasks.filter(|task: Arc<Task<F>>| task.tag == tag).len()
}

/// One task more, at either end, is one more under its tag and none under any other.
proof fn lemma_count_one<F>(tasks: Seq<Arc<Task<F>>>, task: Arc<Task<F>>, tag: usize)
    ensures
        count_tag(tasks.push(task), tag) == count_tag(tasks, tag) + if task.tag == tag {
            1nat
        } else {
            0nat
        },
        count_tag(seq![task] + tasks, tag) == count_tag(tasks, tag) + if task.tag == tag {
            1nat
        } else {
            0nat
        },
{
    let keep = |other: Arc<Task<F>>| other.tag == tag;
    Seq::filter_distributes_over_add(seq![task], tasks, keep);
    reveal_with_fuel(Seq::filter, 2);
    assert(tasks.push(task).drop_last() =~= tasks);
    assert(seq![task].drop_last() =~= Seq::empty());
}

/// None of some tasks has a tag if and only if their number under it is zero.
proof fn lemma_count_none<F>(tasks: Seq<Arc<Task<F>>>, tag: usize)
    ensures
        has_tag(tasks, tag) <==> count_tag(tasks, tag) > 0,
    decreases tasks.len(),
{
    if tasks.len() == 0 {
        reveal(Seq::filter);
    } else {
        let rest = tasks.drop_last();
        let last = tasks.last();
        assert(tasks =~= rest.push(last));
        lemma_count_none(rest, tag);
        lemma_count_one(rest, last, tag);
        if has_tag(rest, tag) {
            let i = choose|i: int| 0 <= i < rest.len() && (#[trigger] rest[i]).tag == tag;
            assert(tasks[i].tag == tag);
        } else if last.tag == tag {
            assert(tasks[tasks.len() - 1].tag == tag);
        } else if has_tag(tasks, tag) {
            let i = choose|i: int| 0 <= i < tasks.len() && (#[trigger] tasks[i]).tag == tag;
            assert(rest[i].tag == tag);
        }
    }
}

/// Arrivals add to the number under a tag as many as there are among them.
proof fn lemma_count_arrivals<F>(
    tasks: Seq<Arc<Task<F>>>,
    arrivals: Seq<Arc<Task<F>>>,
    tag: usize,
)
    ensures
        count_tag(requeued_all(tasks, arrivals), tag) == count_tag(tasks, tag) + count_tag(
            arrivals,
            tag,
        ),
    decreases arrivals.len(),
{
    if arrivals.len() == 0 {
        reveal(Seq::filter);
        assert(requeued_all(tasks, arrivals) =~= tasks);
    } else {
        let earlier = arrivals.drop_last();
        let last = arrivals.last();
        assert(arrivals =~= earlier.push(last));
        lemma_count_arrivals(tasks, earlier, tag);
        requeued_all_push(tasks, earlier, last);
        lemma_count_one(requeued_all(tasks, earlier), last, tag);
        lemma_count_one(earlier, last, tag);
    }
}

/// What is left without one tag is as many as before under each other tag.
proof fn lemma_count_without<F>(tasks: Seq<Arc<Task<F>>>, gone: usize, tag: usize)
    requires
        gone != tag,
    ensures
        count_tag(tasks.filter(|task: Arc<Task<F>>| task.tag != gone), tag) == count_tag(
            tasks,
            tag,
        ),
    decreases tasks.len(),
{
    reveal(Seq::filter);
    if tasks.len() > 0 {
        let keep = |task: Arc<Task<F>>| task.tag != gone;
        let rest = tasks.drop_last();
        let last = tasks.last();
        assert(tasks =~= rest.push(last));
        lemma_count_without(rest, gone, tag);
        lemma_count_one(rest, last, tag);
        lemma_count_one(rest.filter(keep), last, tag);
    }
}

/// The handles under a tag are those on the queue, the one to the current task and those of
/// others.
proof fn lemma_handle_count<F>(world: World<F>, tag: usize)
    ensures
        world.handle_count(tag) == count_tag(world.executor.runtime.queue, tag)
            + world.outside.count(tag as int) + match world.executor.current {
            Some(task) => if task.tag == tag {
                1nat
            } else {
                0nat
            },
            None => 0nat,
        },
{
    match world.executor.current {
        Some(task) => {
            lemma_count_one(world.executor.runtime.queue, task, tag);
        },
        None => {},
    }
}

/// No handle gets lost: whatever happens, each handle to a task that there was before is on the
/// queue, is that to the current task, or is with others. There is one more when a task is picked,
/// which is handed out while the executor keeps one, and when a waker is made. There is one less
/// when somebody lets go of one, and when a waker for a task that is finished is used. The executor
/// gives up its own handles to a task only when a poll of that task is ready: then there are as
/// many as others have.
pub proof fn handles_are_conserved<F>(world: World<F>, event: Event<F>, tag: usize)
    requires
        world.accounted(),
        world.admits(event),
        tag < world.executor.runtime.tags,
    ensures
        ({
            let before = world.handle_count(tag);
            let after = world.after(event).handle_count(tag);
            match event {
                Event::NextTask => match world.after(event).executor.current {
                    Some(task) => after == before + if task.tag == tag {
                        1nat
                    } else {
                        0nat
                    },
                    None => after == before,
                },
                Event::FinishPoll(outcome) => if outcome is Ready
                    && world.executor.current.unwrap().tag == tag {
                    after == world.outside.count(tag as int)
                } else {
                    after == before
                },
                Event::MakeWaker(task) => after == before + if task.tag == tag {
                    1nat
                } else {
                    0nat
                },
                Event::Wake(task) => after == before - if task.tag == tag
                    && !world.executor.is_unfinished(tag) {
                    1int
                } else {
                    0int
                },
                Event::DropHandle(other) => after == before - if other == tag {
                    1int
                } else {
                    0int
                },
                _ => after == before,
            }
        }),
{
    let executor = world.executor;
    let queue = executor.runtime.queue;
    let fresh = new_tasks(executor.interface.sent, executor.runtime.tags);
    lemma_handle_count(world, tag);
    lemma_handle_count(world.after(event), tag);
    match event {
        Event::NextTask => {
            lemma_count_arrivals(queue, fresh, tag);
            lemma_none_of_the_new(world, tag);
            let all = executor.queue_all().runtime.queue;
            if all.len() > 0 {
                assert(all =~= seq![all.first()] + all.drop_first());
                lemma_count_one(all.drop_first(), all.first(), tag);
            }
        },
        Event::FinishPoll(outcome) => {
            let task = executor.current.unwrap();
            if executor.polls_again(outcome) {
                lemma_count_arrivals(queue, fresh, tag);
                lemma_none_of_the_new(world, tag);
            } else if outcome is Ready {
                if task.tag == tag {
                    without_tag(queue, tag);
                    lemma_count_none(world.after(event).executor.runtime.queue, tag);
                } else {
                    lemma_count_without(queue, task.tag, tag);
                }
            } else {
                lemma_count_one(queue, task, tag);
            }
        },
        Event::Wake(task) => {
            lemma_count_one(queue, task, tag);
        },
        _ => {},
    }
}

/// New tasks have none of the tags that were given out before.
proof fn lemma_none_of_the_new<F>(world: World<F>, tag: usize)
    requires
        world.executor.has_tags(),
        tag < world.executor.runtime.tags,
    ensures
        count_tag(new_tasks(world.executor.interface.sent, world.executor.runtime.tags), tag) == 0,
{
    let fresh = new_tasks(world.executor.interface.sent, world.executor.runtime.tags);
    lemma_count_none(fresh, tag);
    if has_tag(fresh, tag) {
        let i = choose|i: int| 0 <= i < fresh.len() && (#[trigger] fresh[i]).tag == tag;
        assert(fresh[i].tag == world.executor.runtime.tags + i);
    }
}

/// Once a poll of a task is ready, the executor has given up its handles to that task for good:
/// from then on, whatever happens, the handles to it are exactly those that others have, and it can
/// be dropped as soon as these are gone. At the poll itself, others keep the handles that they had.
pub proof fn ready_task_is_left_to_others<F>(world: World<F>, events: Seq<Event<F>>)
    requires
        world.accounted(),
        world.executor.current is Some,
        world.after(Event::FinishPoll(Poll::Ready)).admits_all(events),
    ensures
        ({
            let tag = world.executor.current.unwrap().tag;
            let ready = world.after(Event::FinishPoll(Poll::Ready));
            let later = ready.after_all(events);
            &&& ready.outside == world.outside
            &&& ready.handle_count(tag) == world.outside.count(tag as int)
            &&& later.handle_count(tag) == later.outside.count(tag as int)
            &&& forall|i: int|
                0 <= i < handles(later.executor).len() ==> (#[trigger] handles(
                    later.executor,
                )[i]).tag != tag
            &&& later.live.contains_key(tag as int) && later.outside.count(tag as int) == 0
                ==> later.admits(Event::DropTask(tag as int))
        }),
{
    let tag = world.executor.current.unwrap().tag;
    let ready = world.after(Event::FinishPoll(Poll::Ready));
    assert(ready.after_all(Seq::empty()) == ready);
    assert(ready.admits_all(Seq::empty()));
    lemma_finished_task_is_with_others(world, Seq::empty());
    lemma_finished_task_is_with_others(world, events);
}

/// After a poll of a task was ready, the executor has no handle to it.
proof fn lemma_finished_task_is_with_others<F>(world: World<F>, events: Seq<Event<F>>)
    requires
        world.accounted(),
        world.executor.current is Some,
        world.after(Event::FinishPoll(Poll::Ready)).admits_all(events),
    ensures
        ({
            let tag = world.executor.current.unwrap().tag;
            let later = world.after(Event::FinishPoll(Poll::Ready)).after_all(events);
            &&& !has_tag(handles(later.executor), tag)
            &&& later.handle_count(tag) == later.outside.count(tag as int)
        }),
{
    let tag = world.executor.current.unwrap().tag;
    let later = world.after(Event::FinishPoll(Poll::Ready)).after_all(events);
    ready_task_is_finished(world, events);
    lemma_holds_is_handle(later.executor, tag);
    lemma_count_none(handles(later.executor), tag);
}

} // verus!
