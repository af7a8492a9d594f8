//! In which order futures get their turns that users block on.
use crate::runtime::history::books_are_right;
use crate::runtime::history::handles;
use crate::runtime::history::new_world;
use crate::runtime::history::tags_follow_sends;
use crate::runtime::history::Event;
use crate::runtime::history::World;
use crate::runtime::new_tasks;
use crate::runtime::order::requeue_all_keeps_tags;
use crate::runtime::queue::has_tag;
use crate::runtime::queue::requeued;
use crate::runtime::queue::requeued_all;
use crate::runtime::queue::requeued_all_push;
use crate::runtime::queue::without_tag;
use crate::runtime::task::Blocking;
use crate::runtime::task::Task;
use crate::runtime::turns::handles_are_distinct;
use crate::runtime::turns::lemma_has_tag_push;
use crate::runtime::turns::lemma_no_wakes_before;
use crate::runtime::turns::lemma_queue_tags;
use crate::runtime::turns::no_wakes;
use std::sync::Arc;
use vstd::prelude::*;

verus! {

/// Whether of each two of `tasks` that block, the one with the higher tag stands first.
pub open spec fn latest_first<F>(tasks: Seq<Arc<Task<F>>>) -> bool {
    forall|i: int, j: int|
        0 <= i < j < tasks.len() && tasks[i].block is Blocking && tasks[j].block is Blocking ==> (
        #[trigger] tasks[i]).tag > (#[trigger] tasks[j]).tag
}

/// Arrivals with higher and higher tags leave the latest first.
proof fn lemma_arrivals_latest_first<F>(tasks: Seq<Arc<Task<F>>>, arrivals: Seq<Arc<Task<F>>>)
    requires
        latest_first(tasks),
        forall|i: int, j: int|
            0 <= i < j < arrivals.len() ==> (#[trigger] arrivals[i]).tag < (
            #[trigger] arrivals[j]).tag,
        forall|i: int, j: int|
            0 <= i < tasks.len() && 0 <= j < arrivals.len() ==> (#[trigger] tasks[i]).tag < (
            #[trigger] arrivals[j]).tag,
    ensures
        latest_first(requeued_all(tasks, arrivals)),
    decreases arrivals.len(),
{
    if arrivals.len() == 0 {
        reveal(Seq::filter);
        assert(requeued_all(tasks, arrivals) =~= tasks);
    } else {
        let earlier = arrivals.drop_last();
        let last = arrivals.last();
        let before = requeued_all(tasks, earlier);
        assert(arrivals =~= earlier.push(last));
        assert(arrivals[arrivals.len() - 1] == last);
        lemma_arrivals_latest_first(tasks, earlier);
        requeued_all_push(tasks, earlier, last);
        assert forall|i: int| 0 <= i < before.len() implies (#[trigger] before[i]).tag < last.tag by {
            let tag = before[i].tag;
            requeue_all_keeps_tags(tasks, earlier, tag);
            assert(has_tag(before, tag));
            if has_tag(tasks, tag) {
                let j = choose|j: int| 0 <= j < tasks.len() && (#[trigger] tasks[j]).tag == tag;
                assert(tasks[j].tag < arrivals[arrivals.len() - 1].tag);
            } else {
                let j = choose|j: int| 0 <= j < earlier.len() && (#[trigger] earlier[j]).tag == tag;
                assert(arrivals[j].tag < arrivals[arrivals.len() - 1].tag);
            }
        }
        let all = requeued(before, last);
        assert forall|i: int, j: int|
            0 <= i < j < all.len() && all[i].block is Blocking && all[j].block is Blocking implies (
        #[trigger] all[i]).tag > (#[trigger] all[j]).tag by {
            if last.block is Blocking {
                assert(all[j] == before[j - 1]);
                if i > 0 {
                    assert(all[i] == before[i - 1]);
                }
            } else {
                assert(all[i] == before[i] && all[j] == before[j]);
            }
        }
    }
}

/// What is received joins the queue with the latest first, and each of it is there then.
proof fn lemma_received_latest_first<F>(world: World<F>)
    requires
        world.accounted(),
        world.executor.has_tags(),
        latest_first(world.executor.runtime.queue),
    ensures
        ({
            let all = world.executor.queue_all().runtime;
            &&& latest_first(all.queue)
            &&& forall|tag: usize|
                has_tag(world.executor.runtime.queue, tag) || world.executor.runtime.tags <= tag
                    < all.tags ==> #[trigger] has_tag(all.queue, tag)
        }),
{
    let executor = world.executor;
    let queue = executor.runtime.queue;
    let tags = executor.runtime.tags;
    let fresh = new_tasks(executor.interface.sent, tags);
    let all = executor.queue_all().runtime;
    let shift: int = if executor.current is Some { 1 } else { 0 };
    assert forall|i: int, j: int| 0 <= i < queue.len() && 0 <= j < fresh.len() implies (
    #[trigger] queue[i]).tag < (#[trigger] fresh[j]).tag by {
        assert(handles(executor)[i + shift] == queue[i]);
        assert(world.knows(handles(executor)[i + shift]));
    }
    lemma_arrivals_latest_first(queue, fresh);
    assert forall|tag: usize|
        has_tag(queue, tag) || tags <= tag < all.tags implies #[trigger] has_tag(
        all.queue,
        tag,
    ) by {
        requeue_all_keeps_tags(queue, fresh, tag);
        if tags <= tag < all.tags {
            assert(fresh[tag - tags].tag == tag);
        }
    }
}

/// In every state that an executor can reach while nobody wakes a task, of those that block and
/// wait the latest stands first.
pub proof fn blocking_tasks_wait_latest_first<F>(events: Seq<Event<F>>)
    requires
        new_world::<F>().admits_all(events),
        no_wakes(events),
    ensures
        latest_first(new_world::<F>().after_all(events).executor.runtime.queue),
    decreases events.len(),
{
    if events.len() > 0 {
        let earlier = events.drop_last();
        let before = new_world::<F>().after_all(earlier);
        let queue = before.executor.runtime.queue;
        lemma_no_wakes_before(events);
        blocking_tasks_wait_latest_first(earlier);
        books_are_right(earlier);
        handles_are_distinct(earlier);
        match events.last() {
            Event::NextTask => {
                lemma_received_latest_first(before);
                lemma_first_taken(before.executor.queue_all().runtime.queue);
            },
            Event::FinishPoll(outcome) => {
                if before.executor.polls_again(outcome) {
                    lemma_received_latest_first(before);
                } else if outcome is Ready {
                    lemma_queue_tags(before);
                    without_tag(queue, before.executor.current.unwrap().tag);
                } else {
                    let all = queue.push(before.executor.current.unwrap());
                    assert forall|i: int, j: int|
                        0 <= i < j < all.len() && all[i].block is Blocking
                            && all[j].block is Blocking implies (#[trigger] all[i]).tag > (
                    #[trigger] all[j]).tag by {
                        assert(all[i] == queue[i] && all[j] == queue[j]);
                    }
                }
            },
            _ => {},
        }
    }
}

/// What is latest first stays so without the first.
proof fn lemma_first_taken<F>(tasks: Seq<Arc<Task<F>>>)
    requires
        latest_first(tasks),
    ensures
        tasks.len() > 0 ==> latest_first(tasks.drop_first()),
{
    if tasks.len() > 0 {
        let rest = tasks.drop_first();
        assert forall|i: int, j: int|
            0 <= i < j < rest.len() && rest[i].block is Blocking && rest[j].block is Blocking implies (
        #[trigger] rest[i]).tag > (#[trigger] rest[j]).tag by {
            assert(rest[i] == tasks[i + 1] && rest[j] == tasks[j + 1]);
        }
    }
}

/// A future that was received and never picked waits: the executor has a task made of it on its
/// queue.
pub proof fn unpicked_futures_wait<F>(events: Seq<Event<F>>, tag: usize)
    requires
        new_world::<F>().admits_all(events),
        no_wakes(events),
        tag < new_world::<F>().after_all(events).executor.runtime.tags,
        !has_tag(new_world::<F>().picks(events), tag),
    ensures
        has_tag(new_world::<F>().after_all(events).executor.runtime.queue, tag),
        new_world::<F>().after_all(events).executor.current matches Some(task) ==> task.tag != tag,
    decreases events.len(),
{
    if events.len() > 0 {
        let earlier = events.drop_last();
        let before = new_world::<F>().after_all(earlier);
        let later = new_world::<F>().after_all(events);
        let queue = before.executor.runtime.queue;
        let picks = new_world::<F>().picks(earlier);
        lemma_no_wakes_before(events);
        books_are_right(earlier);
        handles_are_distinct(earlier);
        blocking_tasks_wait_latest_first(earlier);
        match (events.last(), later.executor.current) {
            (Event::NextTask, Some(task)) => {
                lemma_has_tag_push(picks, task, tag);
            },
            _ => {},
        }
        if tag < before.executor.runtime.tags {
            unpicked_futures_wait(earlier, tag);
        }
        match events.last() {
            Event::NextTask => {
                lemma_received_latest_first(before);
                let all = before.executor.queue_all().runtime.queue;
                assert(has_tag(all, tag));
                let i = choose|i: int| 0 <= i < all.len() && (#[trigger] all[i]).tag == tag;
                assert(later.executor.current == Some(all[0]));
                assert(later.executor.runtime.queue[i - 1].tag == tag);
            },
            Event::FinishPoll(outcome) => {
                if before.executor.polls_again(outcome) {
                    lemma_received_latest_first(before);
                    if before.executor.runtime.tags <= tag {
                        assert(handles(before.executor)[0] == before.executor.current.unwrap());
                        assert(before.knows(handles(before.executor)[0]));
                    }
                } else if outcome is Ready {
                    without_tag(queue, before.executor.current.unwrap().tag);
                } else {
                    lemma_has_tag_push(queue, before.executor.current.unwrap(), tag);
                }
            },
            _ => {},
        }
    }
}

/// Of two futures that users block on, the one that was sent later is picked first, if both have
/// been received before the other is picked: let both have been received when the first `n` of
/// `events` have happened, be it by picking a task or between two polls of a task that blocks, and
/// let the former not have been picked by then. Then each pick of the former comes after a pick of
/// the latter.
pub proof fn later_block_on_is_picked_first<F>(
    events: Seq<Event<F>>,
    n: int,
    former: int,
    latter: int,
    pick: int,
)
    requires
        new_world::<F>().admits_all(events),
        no_wakes(events),
        0 <= n <= events.len(),
        0 <= former < latter < new_world::<F>().after_all(events.take(n)).executor.runtime.tags,
        new_world::<F>().sends(events)[former].0 is Blocking,
        new_world::<F>().sends(events)[latter].0 is Blocking,
        !has_tag(new_world::<F>().picks(events.take(n)), former as usize),
        0 <= pick < new_world::<F>().picks(events).len(),
        new_world::<F>().picks(events)[pick].tag == former,
    ensures
        exists|other: int|
            0 <= other < pick && (#[trigger] new_world::<F>().picks(events)[other]).tag == latter,
{
    lemma_later_picked_first(events, n, former, latter);
    let picks = new_world::<F>().picks(events);
    let before = picks.take(pick);
    assert(has_tag(before, latter as usize));
    let other = choose|other: int|
        0 <= other < before.len() && (#[trigger] before[other]).tag == latter as usize;
    assert(picks[other] == before[other]);
}

/// Each pick of the former of two futures that users block on comes after one of the latter.
proof fn lemma_later_picked_first<F>(events: Seq<Event<F>>, n: int, former: int, latter: int)
    requires
        new_world::<F>().admits_all(events),
        no_wakes(events),
        0 <= n <= events.len(),
        0 <= former < latter < new_world::<F>().after_all(events.take(n)).executor.runtime.tags,
        new_world::<F>().sends(events)[former].0 is Blocking,
        new_world::<F>().sends(events)[latter].0 is Blocking,
        !has_tag(new_world::<F>().picks(events.take(n)), former as usize),
    ensures
        latter < new_world::<F>().after_all(events).executor.runtime.tags,
        forall|pick: int|
            0 <= pick < new_world::<F>().picks(events).len() && new_world::<F>().picks(
                events,
            )[pick].tag == former ==> has_tag(
                #[trigger] new_world::<F>().picks(events).take(pick),
                latter as usize,
            ),
    decreases events.len(),
{
    let picks = new_world::<F>().picks(events);
    if n == events.len() {
        assert(events.take(n) =~= events);
        assert forall|pick: int| 0 <= pick < picks.len() implies (#[trigger] picks[pick]).tag
            != former by {}
    } else {
        let earlier = events.drop_last();
        let before = new_world::<F>().after_all(earlier);
        let later = new_world::<F>().after_all(events);
        let picks_before = new_world::<F>().picks(earlier);
        let sends = new_world::<F>().sends(events);
        assert(earlier.take(n) =~= events.take(n));
        lemma_no_wakes_before(events);
        tags_follow_sends(earlier);
        lemma_tags_grow(earlier, n);
        assert(new_world::<F>().sends(earlier)[former] == sends[former]);
        assert(new_world::<F>().sends(earlier)[latter] == sends[latter]);
        lemma_later_picked_first(earlier, n, former, latter);
        assert forall|pick: int|
            0 <= pick < picks.len() && picks[pick].tag == former implies has_tag(
            #[trigger] picks.take(pick),
            latter as usize,
        ) by {
            if pick < picks_before.len() {
                assert(picks.take(pick) =~= picks_before.take(pick));
                assert(picks[pick] == picks_before[pick]);
            } else {
                assert(picks.take(pick) =~= picks_before);
                lemma_latest_is_next(events, former, latter);
            }
        }
    }
}

/// The number of tags that were given out never goes down.
proof fn lemma_tags_grow<F>(events: Seq<Event<F>>, n: int)
    requires
        new_world::<F>().admits_all(events),
        0 <= n <= events.len(),
    ensures
        new_world::<F>().after_all(events.take(n)).executor.runtime.tags <= new_world::<
            F,
        >().after_all(events).executor.runtime.tags,
    decreases events.len(),
{
    if n == events.len() {
        assert(events.take(n) =~= events);
    } else {
        assert(events.drop_last().take(n) =~= events.take(n));
        lemma_tags_grow(events.drop_last(), n);
    }
}

/// A future that users block on is picked only when each later one that was received has been
/// picked before.
proof fn lemma_latest_is_next<F>(events: Seq<Event<F>>, former: int, latter: int)
    requires
        new_world::<F>().admits_all(events),
        no_wakes(events),
        events.len() > 0,
        events.last() is NextTask,
        0 <= former < latter < new_world::<F>().after_all(
            events.drop_last(),
        ).executor.runtime.tags,
        new_world::<F>().sends(events)[former].0 is Blocking,
        new_world::<F>().sends(events)[latter].0 is Blocking,
        new_world::<F>().after_all(events).executor.current is Some,
        new_world::<F>().after_all(events).executor.current.unwrap().tag == former,
    ensures
        has_tag(new_world::<F>().picks(events.drop_last()), latter as usize),
{
    let earlier = events.drop_last();
    let before = new_world::<F>().after_all(earlier);
    let later = new_world::<F>().after_all(events);
    let all = before.executor.queue_all().runtime.queue;
    lemma_no_wakes_before(events);
    books_are_right(earlier);
    books_are_right(events);
    tags_follow_sends(events);
    blocking_tasks_wait_latest_first(earlier);
    lemma_received_latest_first(before);
    if !has_tag(new_world::<F>().picks(earlier), latter as usize) {
        unpicked_futures_wait(earlier, latter as usize);
        assert(has_tag(all, latter as usize));
        let i = choose|i: int| 0 <= i < all.len() && (#[trigger] all[i]).tag == latter as usize;
        assert(handles(later.executor)[0] == all[0]);
        assert(handles(later.executor)[i] == all[i]);
        assert(later.knows(handles(later.executor)[0]));
        assert(later.knows(handles(later.executor)[i]));
        assert(all[0].tag > all[i].tag);
    }
}

} // verus!
