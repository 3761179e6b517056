use std::collections::VecDeque;
use vstd::prelude::*;

verus! {

/// The ready queue: the pids of the tasks that wait for the processor,
/// served first in, first out.
pub struct TaskManager {
    ready_queue: VecDeque<usize>,
}

impl View for TaskManager {
    type V = Seq<usize>;

    closed spec fn view(&self) -> Seq<usize> {
        self.ready_queue@
    }
}

impl TaskManager {
    /// An empty queue.
    pub fn new() -> (m: TaskManager)
        ensures
            m@ == Seq::<usize>::empty(),
    {
        TaskManager { ready_queue: VecDeque::new() }
    }

    /// Puts `task` at the back of the queue.
    pub fn add(&mut self, task: usize)
        ensures
            final(self)@ == old(self)@.push(task),
    {
        self.ready_queue.push_back(task);
    }

    /// Takes the task at the front of the queue, if there is one.
    pub fn fetch(&mut self) -> (task: Option<usize>)
        ensures
            old(self)@.len() == 0 ==> task is None && final(self)@ == old(self)@,
            old(self)@.len() > 0 ==> task == Some(old(self)@[0]) && final(self)@
                == old(self)@.drop_first(),
    {
        let t = self.ready_queue.pop_front();
        proof {
            if old(self)@.len() > 0 {
                assert(self@ =~= old(self)@.drop_first());
            }
        }
        t
    }

    /// The number of queued tasks.
    pub fn len(&self) -> (n: usize)
        ensures
            n == self@.len(),
    {
        self.ready_queue.len()
    }

    /// The task at position `i` from the front.
    pub fn get(&self, i: usize) -> (task: usize)
        requires
            i < self@.len(),
        ensures
            task == self@[i as int],
    {
        self.ready_queue[i]
    }
}

/// Tasks leave the queue in the order they entered it: after adding `a` and
/// then `b` to an empty queue, fetching gives `a` and then `b`.
pub proof fn lemma_ready_queue_fifo(q: Seq<usize>, a: usize, b: usize)
    requires
        q.len() == 0,
    ensures
        q.push(a).push(b)[0] == a,
        q.push(a).push(b).drop_first()[0] == b,
        q.push(a).push(b).drop_first().drop_first() == Seq::<usize>::empty(),
{
    assert(q.push(a).push(b).drop_first().drop_first() =~= Seq::<usize>::empty());
}

} // verus!
