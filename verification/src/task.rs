//! The task record and its mathematical view.

use vstd::prelude::*;

use crate::date::Date;

verus! {

/// One task: an id that is never reused, free-form description text, a
/// completion flag, and an optional due date.
#[derive(Clone, Debug, PartialEq)]
pub struct Todo {
    pub id: u64,
    pub task: String,
    pub completed: bool,
    pub due_date: Option<Date>,
}

/// The mathematical value of a task: the description as a sequence of
/// characters, everything else as plain values.
pub struct TaskView {
    pub id: u64,
    pub task: Seq<char>,
    pub completed: bool,
    pub due_date: Option<Date>,
}

impl View for Todo {
    type V = TaskView;

    open spec fn view(&self) -> TaskView {
        TaskView {
            id: self.id,
            task: self.task@,
            completed: self.completed,
            due_date: self.due_date,
        }
    }
}

/// The views of a sequence of tasks, in order.
pub open spec fn views_of(tasks: Seq<Todo>) -> Seq<TaskView> {
    tasks.map(|_i: int, t: Todo| t@)
}

impl TaskView {
    /// A due date, when present, names a real calendar day.
    pub open spec fn dates_valid(self) -> bool {
        self.due_date matches Some(d) ==> d.valid()
    }
}

impl Todo {
    /// A second task equal in value to this one.
    pub fn duplicate(&self) -> (r: Todo)
        ensures
            r@ == self@,
    {
        Todo {
            id: self.id,
            task: self.task.clone(),
            completed: self.completed,
            due_date: self.due_date,
        }
    }
}

} // verus!
