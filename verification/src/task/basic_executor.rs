use vstd::prelude::*;

use std::collections::VecDeque;

use crate::task::Task;

verus! {

/// Round-robin scheduling state: tasks wait in a queue, the head is polled,
/// and a task that is not done yet goes to the back of the queue.
///
/// The runner that owns the futures drives the loop: it takes the next task,
/// polls its future, and reports back whether the task must run again.
pub struct BasicExecutor {
    pub task_queue: VecDeque<Task>,
}

impl BasicExecutor {
    pub fn new() -> (r: BasicExecutor)
        ensures
            r.task_queue@.len() == 0,
    {
        BasicExecutor { task_queue: VecDeque::new() }
    }

    /// Adds a task at the back of the queue.
    pub fn spawn(&mut self, task: Task)
        ensures
            final(self).task_queue@ == old(self).task_queue@.push(task),
    {
        self.task_queue.push_back(task);
    }

    /// First half of one scheduling step: hands out the task at the head of
    /// the queue, or reports that the queue is empty and the run is over.
    pub fn next_task(&mut self) -> (r: Option<Task>)
        ensures
            old(self).task_queue@.len() > 0 ==> r == Some(old(self).task_queue@[0])
                && final(self).task_queue@ == old(self).task_queue@.drop_first(),
            old(self).task_queue@.len() == 0 ==> r is None
                && final(self).task_queue@ == old(self).task_queue@,
    {
        let r = self.task_queue.pop_front();
        proof {
            if old(self).task_queue@.len() > 0 {
                assert(self.task_queue@ =~= old(self).task_queue@.drop_first());
            }
        }
        r
    }

    /// Second half of one scheduling step: a task whose future was polled and
    /// is still pending goes to the back of the queue; a finished task is
    /// dropped.
    pub fn requeue(&mut self, task: Task, pending: bool)
        ensures
            pending ==> final(self).task_queue@ == old(self).task_queue@.push(task),
            !pending ==> final(self).task_queue@ == old(self).task_queue@,
    {
        if pending {
            self.task_queue.push_back(task);
        }
    }
}

} // verus!
