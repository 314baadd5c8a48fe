//! The processor: which task runs on it, and the context of its idle flow
//! of control.

use crate::task::context::TaskContext;
use vstd::prelude::*;

verus! {

/// The state of the one processor: the handle of the task that runs on it,
/// if one does, and the context of the idle flow of control, which runs
/// while no task does.
pub struct Processor {
    current: Option<usize>,
    idle_task_cx: TaskContext,
}

impl Processor {
    /// The handle of the task that runs, if one does.
    pub closed spec fn running(&self) -> Option<usize> {
        self.current
    }

    /// The context of the idle flow of control.
    pub closed spec fn idle_context(&self) -> TaskContext {
        self.idle_task_cx
    }

    /// A processor on which no task runs.
    pub fn new() -> (p: Processor)
        ensures
            p.running().is_none(),
            p.idle_context().ra() == 0,
            p.idle_context().sp() == 0,
            p.idle_context().saved() == Seq::new(12, |i: int| 0u64),
    {
        Processor { current: None, idle_task_cx: TaskContext::zero_init() }
    }

    /// The context of the idle flow of control.
    pub fn get_idle_task_cx(&self) -> (cx: TaskContext)
        ensures
            cx == self.idle_context(),
    {
        self.idle_task_cx
    }

    /// Takes the running task off the processor.
    pub fn take_current(&mut self) -> (r: Option<usize>)
        ensures
            r == old(self).running(),
            final(self).running().is_none(),
            final(self).idle_context() == old(self).idle_context(),
    {
        self.current.take()
    }

    /// The handle of the task that runs, if one does.
    pub fn current(&self) -> (r: Option<usize>)
        ensures
            r == self.running(),
    {
        self.current
    }

    /// Puts `task` on the processor.
    pub fn set_current(&mut self, task: usize)
        ensures
            final(self).running() == Some(task),
            final(self).idle_context() == old(self).idle_context(),
    {
        self.current = Some(task);
    }
}

} // verus!
