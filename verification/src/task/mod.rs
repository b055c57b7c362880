use vstd::prelude::*;

pub mod basic_executor;

verus! {

/// Identity of one spawned task.
///
/// The running kernel draws these from a global counter; global state stays
/// outside this library, so the runner that owns the counter passes the next
/// value in.
#[derive(Debug, Clone, Copy, PartialEq, Eq, Structural, PartialOrd, Ord)]
pub struct TaskId(pub u64);

impl TaskId {
    pub fn new(id: u64) -> (r: TaskId)
        ensures
            r.0 == id,
    {
        TaskId(id)
    }
}

/// The executor's record of one spawned task.
///
/// The future being driven lives with the runner that polls it, keyed by this
/// id; the scheduling state here decides which task is polled next.
#[derive(Debug, Clone, Copy, PartialEq, Eq, Structural)]
pub struct Task {
    pub id: TaskId,
}

impl Task {
    pub fn new(id: u64) -> (r: Task)
        ensures
            r.id.0 == id,
    {
        Task { id: TaskId::new(id) }
    }
}

} // verus!
