//! The task record and its mathematical model.

use vstd::prelude::*;

verus! {

/// A single to-do item: a unique numeric id, a free-form description, and a
/// completion flag.
pub struct Task {
    pub id: u64,
    pub description: String,
    pub done: bool,
}

/// The mathematical model of a task: the description is a sequence of
/// characters.
pub struct TaskView {
    pub id: u64,
    pub description: Seq<char>,
    pub done: bool,
}

impl View for Task {
    type V = TaskView;

    open spec fn view(&self) -> TaskView {
        TaskView { id: self.id, description: self.description@, done: self.done }
    }
}

/// The models of the tasks in a collection, in order.
pub open spec fn views(ts: Seq<Task>) -> Seq<TaskView> {
    ts.map(|i: int, t: Task| t@)
}

} // verus!
