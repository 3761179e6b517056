use vstd::prelude::*;

verus! {

/// The processor's record of the task it runs, by pid.
pub struct Processor {
    current: Option<usize>,
}

impl View for Processor {
    type V = Option<usize>;

    closed spec fn view(&self) -> Option<usize> {
        self.current
    }
}

impl Processor {
    /// A processor that runs no task.
    pub fn new() -> (p: Processor)
        ensures
            p@ is None,
    {
        Processor { current: None }
    }

    /// Takes the running task off the processor.
    pub fn take_current(&mut self) -> (task: Option<usize>)
        ensures
            task == old(self)@,
            final(self)@ is None,
    {
        self.current.take()
    }

    /// The running task.
    pub fn current(&self) -> (task: Option<usize>)
        ensures
            task == self@,
    {
        self.current
    }

    /// Puts `task` on the processor.
    pub fn set_current(&mut self, task: usize)
        ensures
            final(self)@ == Some(task),
    {
        self.current = Some(task);
    }
}

} // verus!
