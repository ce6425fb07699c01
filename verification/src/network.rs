use vstd::prelude::*;
use crate::orchestrator::Task;

verus! {

/// A task as sent over the wire to a remote worker.
pub struct TaskMessage {
    pub id: u32,
    pub query: String,
    pub context: String,
}

/// A worker's answer as received over the wire.
pub struct ResultMessage {
    pub task_id: u32,
    pub output: String,
}

/// The wire form of a task.
pub fn task_message(task: Task) -> (msg: TaskMessage)
    ensures
        msg.id == task.id,
        msg.query == task.query,
        msg.context == task.context,
{
    TaskMessage { id: task.id, query: task.query, context: task.context }
}

} // verus!
