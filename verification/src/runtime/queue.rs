//! The queue of the tasks that are to be polled.
use crate::runtime::handle::give_up;
use crate::runtime::handle::let_go;
use crate::runtime::task::Task;
use std::collections::VecDeque;
use std::sync::Arc;
use vstd::prelude::*;

verus! {

/// The tasks of a runtime that wait to be polled, the next one first.
#[derive(Debug)]
pub struct Queue<F> {
    list: VecDeque<Arc<Task<F>>>,
}

/// The tasks that wait after `task` has joined those in `tasks`: one that blocks goes
/// before all others, any other one behind them.
pub open spec fn requeued<F>(tasks: Seq<Arc<Task<F>>>, task: Arc<Task<F>>) -> Seq<Arc<Task<F>>> {
    if task.block is Blocking {
        seq![task] + tasks
    } else {
        tasks.push(task)
    }
}

/// The tasks of `tasks` that block, in the same order.
pub open spec fn blocking<F>(tasks: Seq<Arc<Task<F>>>) -> Seq<Arc<Task<F>>> {
    tasks.filter(|task: Arc<Task<F>>| task.block is Blocking)
}

/// The tasks of `tasks` that do not block, in the same order.
pub open spec fn nonblocking<F>(tasks: Seq<Arc<Task<F>>>) -> Seq<Arc<Task<F>>> {
    tasks.filter(|task: Arc<Task<F>>| task.block is NonBlocking)
}

/// The tasks of `tasks` that have another tag than `tag`, in the same order.
pub open spec fn without<F>(tasks: Seq<Arc<Task<F>>>, tag: usize) -> Seq<Arc<Task<F>>> {
    tasks.filter(|task: Arc<Task<F>>| task.tag != tag)
}

/// Whether one of `tasks` has the tag `tag`.
pub open spec fn has_tag<F>(tasks: Seq<Arc<Task<F>>>, tag: usize) -> bool {
    exists|i: int| 0 <= i < tasks.len() && (#[trigger] tasks[i]).tag == tag
}

/// The tasks that wait after those of `arrivals` have joined those of `tasks`, one by
/// one: the ones that block stand first, the last to arrive at the very front, and the
/// others last, in the order in which they came.
pub open spec fn requeued_all<F>(
    tasks: Seq<Arc<Task<F>>>,
    arrivals: Seq<Arc<Task<F>>>,
) -> Seq<Arc<Task<F>>> {
    blocking(arrivals).reverse() + tasks + nonblocking(arrivals)
}

impl<F> View for Queue<F> {
    type V = Seq<Arc<Task<F>>>;

    closed spec fn view(&self) -> Seq<Arc<Task<F>>> {
        self.list@
    }
}

impl<F> Queue<F> {
    /// An empty queue.
    pub fn new() -> (queue: Self)
        ensures
            queue@ == Seq::<Arc<Task<F>>>::empty(),
    {
        Queue { list: VecDeque::new() }
    }

    /// Takes the task at the front off the queue. There is none if and only if the queue
    /// is empty.
    pub fn dequeue(&mut self) -> (task: Option<Arc<Task<F>>>)
        ensures
            old(self)@.len() == 0 ==> task is None && final(self)@ == old(self)@,
            old(self)@.len() > 0 ==> task == Some(old(self)@.first()) && final(self)@
                == old(self)@.drop_first(),
    {
        let task = self.list.pop_front();
        self.release();
        task
    }

    /// Lets go of the memory of a queue that has become empty.
    fn release(&mut self)
        ensures
            final(self)@ == old(self)@,
    {
        if self.list.len() == 0 {
            self.list = VecDeque::new();
            assert(self.list@ =~= old(self).list@);
        }
    }

    /// Puts a task on the queue, be it a new one or one that was woken: at the front if
    /// it blocks, at the back if not.
    pub fn requeue(&mut self, task: Arc<Task<F>>)
        ensures
            final(self)@ == requeued(old(self)@, task),
            task.block is Blocking ==> final(self)@ == seq![task] + old(self)@,
            task.block is NonBlocking ==> final(self)@ == old(self)@.push(task),
    {
        if task.will_block() {
            self.list.push_front(task);
        } else {
            self.list.push_back(task);
        }
    }

    /// Whether a task with the tag `tag` waits.
    pub fn contains(&self, tag: usize) -> (found: bool)
        ensures
            found == has_tag(self@, tag),
            found <==> exists|i: int| 0 <= i < self@.len() && (#[trigger] self@[i]).tag == tag,
    {
        let mut i: usize = 0;
        while i < self.list.len()
            invariant
                i <= self@.len(),
                forall|j: int| 0 <= j < i ==> (#[trigger] self@[j]).tag != tag,
            decreases self@.len() - i,
        {
            if self.list[i].tag == tag {
                assert(self@[i as int].tag == tag);
                return true;
            }
            i += 1;
        }
        false
    }

    /// Takes all tasks with the tag `tag` off the queue, wherever they stand, and lets go of
    /// them. The others keep their order.
    pub fn forget(&mut self, tag: usize)
        ensures
            final(self)@ == without(old(self)@, tag),
            final(self)@ == old(self)@.filter(|task: Arc<Task<F>>| task.tag != tag),
            forall|i: int|
                0 <= i < old(self)@.len() && (#[trigger] old(self)@[i]).tag == tag ==> call_ensures(
                    let_go::<Arc<Task<F>>>,
                    (old(self)@[i],),
                    (),
                ),
    {
        let ghost before = self@;
        let len: usize = self.list.len();
        let mut i: usize = 0;
        reveal(Seq::filter);
        assert(self@ =~= before.skip(0) + without(before.take(0), tag));
        while i < len
            invariant
                i <= len == before.len(),
                self@ == before.skip(i as int) + without(before.take(i as int), tag),
                forall|j: int|
                    0 <= j < i && (#[trigger] before[j]).tag == tag ==> call_ensures(
                        let_go::<Arc<Task<F>>>,
                        (before[j],),
                        (),
                    ),
            decreases len - i,
        {
            let ghost kept = without(before.take(i as int), tag);
            match self.list.pop_front() {
                None => {},
                Some(task) => {
                    assert(task == before[i as int]);
                    assert(self@ =~= before.skip(i + 1) + kept);
                    assert(before.take(i + 1).drop_last() =~= before.take(i as int));
                    reveal(Seq::filter);
                    if task.tag != tag {
                        self.list.push_back(task);
                    } else {
                        give_up(task);
                    }
                },
            }
            assert(self@ =~= before.skip(i + 1) + without(before.take(i + 1), tag));
            i += 1;
        }
        assert(before.take(len as int) =~= before);
        assert(self@ =~= without(before, tag));
        self.release();
    }
}

/// When one more task arrives, it joins those that the earlier arrivals have joined.
pub proof fn requeued_all_push<F>(
    tasks: Seq<Arc<Task<F>>>,
    arrivals: Seq<Arc<Task<F>>>,
    task: Arc<Task<F>>,
)
    ensures
        requeued_all(tasks, arrivals.push(task)) == requeued(requeued_all(tasks, arrivals), task),
{
    reveal(Seq::filter);
    assert(arrivals.push(task).drop_last() =~= arrivals);
    assert(requeued_all(tasks, arrivals.push(task)) =~= requeued(
        requeued_all(tasks, arrivals),
        task,
    ));
}

/// What is left without a tag are the tasks that have another one.
pub proof fn without_tag<F>(tasks: Seq<Arc<Task<F>>>, tag: usize)
    ensures
        !has_tag(without(tasks, tag), tag),
        forall|other: usize|
            other != tag ==> has_tag(without(tasks, tag), other) == has_tag(tasks, other),
        forall|i: int|
            0 <= i < without(tasks, tag).len() ==> tasks.contains(
                #[trigger] without(tasks, tag)[i],
            ),
        !has_tag(tasks, tag) ==> without(tasks, tag) == tasks,
    decreases tasks.len(),
{
    reveal(Seq::filter);
    if tasks.len() > 0 {
        let rest = tasks.drop_last();
        let last = tasks.last();
        let kept = without(rest, tag);
        without_tag(rest, tag);
        assert(tasks =~= rest.push(last));
        assert forall|i: int| 0 <= i < without(tasks, tag).len() implies tasks.contains(
            #[trigger] without(tasks, tag)[i],
        ) by {
            if i < kept.len() {
                assert(rest.contains(kept[i]));
                let j = rest.index_of(kept[i]);
                assert(tasks[j] == kept[i]);
            } else {
                assert(tasks[tasks.len() - 1] == last);
            }
        }
        assert forall|other: usize| other != tag implies has_tag(without(tasks, tag), other)
            == has_tag(tasks, other) by {
            assert(has_tag(kept, other) == has_tag(rest, other));
            if has_tag(rest, other) {
                let i = choose|i: int| 0 <= i < rest.len() && (#[trigger] rest[i]).tag == other;
                assert(tasks[i].tag == other);
                let j = choose|j: int| 0 <= j < kept.len() && (#[trigger] kept[j]).tag == other;
                assert(without(tasks, tag)[j].tag == other);
            } else if last.tag == other {
                assert(tasks[tasks.len() - 1].tag == other);
                assert(without(tasks, tag)[kept.len() as int].tag == other);
            } else {
                assert forall|i: int| 0 <= i < tasks.len() implies (#[trigger] tasks[i]).tag
                    != other by {
                    if i < rest.len() {
                        assert(rest[i].tag != other);
                    }
                }
                assert forall|i: int| 0 <= i < without(tasks, tag).len() implies (
                #[trigger] without(tasks, tag)[i]).tag != other by {
                    if i < kept.len() {
                        assert(kept[i].tag != other);
                    }
                }
            }
        }
        assert forall|i: int| 0 <= i < without(tasks, tag).len() implies (#[trigger] without(
            tasks,
            tag,
        )[i]).tag != tag by {
            if i < kept.len() {
                assert(kept[i].tag != tag);
            }
        }
        if !has_tag(tasks, tag) {
            assert forall|i: int| 0 <= i < rest.len() implies (#[trigger] rest[i]).tag != tag by {
                assert(tasks[i].tag != tag);
            }
            assert(tasks[tasks.len() - 1].tag != tag);
            assert(without(tasks, tag) =~= tasks);
        }
    }
}

} // verus!
