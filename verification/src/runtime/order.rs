//! What holds of the queue of a runtime.
use crate::runtime::queue::has_tag;
use crate::runtime::queue::requeued;
use crate::runtime::queue::requeued_all;
use crate::runtime::queue::requeued_all_push;
use crate::runtime::task::Task;
use std::sync::Arc;
use vstd::prelude::*;

verus! {

/// A task that blocks is the next one to be taken off the queue, and the others then wait
/// as they did before.
pub proof fn blocking_task_goes_first<F>(tasks: Seq<Arc<Task<F>>>, task: Arc<Task<F>>)
    requires
        task.block is Blocking,
    ensures
        requeued(tasks, task).first() == task,
        requeued(tasks, task).drop_first() == tasks,
{
    assert(requeued(tasks, task).drop_first() =~= tasks);
}

/// A task that does not block overtakes none: whichever task is first stays first, and
/// taking it off the queue before or after the new task joins makes no difference.
pub proof fn nonblocking_task_waits<F>(tasks: Seq<Arc<Task<F>>>, task: Arc<Task<F>>)
    requires
        task.block is NonBlocking,
        tasks.len() > 0,
    ensures
        requeued(tasks, task).first() == tasks.first(),
        requeued(tasks, task).drop_first() == requeued(tasks.drop_first(), task),
        requeued(tasks, task).last() == task,
{
    assert(requeued(tasks, task).drop_first() =~= requeued(tasks.drop_first(), task));
}

/// The queue neither loses nor doubles a task when one joins.
pub proof fn requeue_keeps_tasks<F>(tasks: Seq<Arc<Task<F>>>, task: Arc<Task<F>>)
    ensures
        requeued(tasks, task).to_multiset() == tasks.to_multiset().insert(task),
{
    broadcast use vstd::seq_lib::group_to_multiset_ensures;

    if task.block is Blocking {
        vstd::seq_lib::lemma_multiset_commutative(seq![task], tasks);
        assert(seq![task] =~= Seq::<Arc<Task<F>>>::empty().push(task));
        assert(seq![task].to_multiset() =~= vstd::multiset::Multiset::empty().insert(task));
    }
    assert(requeued(tasks, task).to_multiset() =~= tasks.to_multiset().insert(task));
}

/// The queue neither loses nor doubles a task when several join.
pub proof fn requeue_all_keeps_tasks<F>(tasks: Seq<Arc<Task<F>>>, arrivals: Seq<Arc<Task<F>>>)
    ensures
        requeued_all(tasks, arrivals).to_multiset() == tasks.to_multiset().add(
            arrivals.to_multiset(),
        ),
    decreases arrivals.len(),
{
    broadcast use vstd::seq_lib::group_to_multiset_ensures;

    if arrivals.len() == 0 {
        reveal(Seq::filter);
        assert(requeued_all(tasks, arrivals) =~= tasks);
        assert(arrivals =~= Seq::empty());
        assert(tasks.to_multiset() =~= tasks.to_multiset().add(arrivals.to_multiset()));
    } else {
        let earlier = arrivals.drop_last();
        let last = arrivals.last();
        assert(arrivals =~= earlier.push(last));
        requeue_all_keeps_tasks(tasks, earlier);
        requeued_all_push(tasks, earlier, last);
        requeue_keeps_tasks(requeued_all(tasks, earlier), last);
        assert(arrivals.to_multiset() =~= earlier.to_multiset().insert(last));
        assert(tasks.to_multiset().add(earlier.to_multiset()).insert(last)
            =~= tasks.to_multiset().add(earlier.to_multiset().insert(last)));
    }
}

/// Which tags are on the queue after some tasks have arrived: those that were there before, and
/// those of the arrivals.
pub proof fn requeue_all_keeps_tags<F>(
    tasks: Seq<Arc<Task<F>>>,
    arrivals: Seq<Arc<Task<F>>>,
    tag: usize,
)
    ensures
        has_tag(requeued_all(tasks, arrivals), tag) == (has_tag(tasks, tag) || has_tag(
            arrivals,
            tag,
        )),
    decreases arrivals.len(),
{
    if arrivals.len() == 0 {
        reveal(Seq::filter);
        assert(requeued_all(tasks, arrivals) =~= tasks);
    } else {
        let earlier = arrivals.drop_last();
        let last = arrivals.last();
        assert(arrivals =~= earlier.push(last));
        requeued_all_push(tasks, earlier, last);
        requeue_all_keeps_tags(tasks, earlier, tag);
        requeue_keeps_tags(requeued_all(tasks, earlier), last, tag);
        if has_tag(earlier, tag) {
            let i = choose|i: int| 0 <= i < earlier.len() && (#[trigger] earlier[i]).tag == tag;
            assert(arrivals[i].tag == tag);
        } else if last.tag == tag {
            assert(arrivals[arrivals.len() - 1].tag == tag);
        } else if has_tag(arrivals, tag) {
            let i = choose|i: int| 0 <= i < arrivals.len() && (#[trigger] arrivals[i]).tag == tag;
            assert(earlier[i].tag == tag);
        }
    }
}

/// Which tags are on the queue after a task has joined it.
pub proof fn requeue_keeps_tags<F>(tasks: Seq<Arc<Task<F>>>, task: Arc<Task<F>>, tag: usize)
    ensures
        has_tag(requeued(tasks, task), tag) == (has_tag(tasks, tag) || task.tag == tag),
{
    let all = requeued(tasks, task);
    let shift: int = if task.block is Blocking { 1 } else { 0 };
    if has_tag(tasks, tag) {
        let i = choose|i: int| 0 <= i < tasks.len() && (#[trigger] tasks[i]).tag == tag;
        assert(all[i + shift].tag == tag);
    } else if task.tag == tag {
        assert(all[if task.block is Blocking { 0 } else { tasks.len() as int }].tag == tag);
    } else if has_tag(all, tag) {
        let i = choose|i: int| 0 <= i < all.len() && (#[trigger] all[i]).tag == tag;
        assert(tasks[i - shift].tag == tag);
    }
}

} // verus!
