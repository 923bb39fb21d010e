//! A persisted single-user task list: tasks with ids, descriptions,
//! completion flags and optional due dates, together with the display
//! ordering, urgency labelling, and the textual format the list is
//! persisted in.

pub mod clock;
pub mod codec;
pub mod date;
pub mod sorting;
pub mod store;
pub mod task;
pub mod text;
