//! Tasks: the control block of a task, the queue of the tasks that are
//! ready to run, and the processor that runs one of them.

pub mod context;
pub mod manager;
pub mod processor;
pub mod task;
