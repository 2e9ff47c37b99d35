//! Scheduling for a series of tasks run in a round: each task reports a
//! signal that decides what runs next.
use vstd::prelude::*;

verus! {

/// Signals returned from constituent tasks of a series.
#[derive(Clone, Copy, PartialEq, Eq, Structural, Debug)]
pub enum Return {
    /// Exit the series.
    Quit,
    /// Move to the next task.
    Continue,
    /// Start the series from the beginning.
    Restart,
}

/// What the series does after one task reported.
#[derive(Clone, Copy, PartialEq, Eq, Structural, Debug)]
pub enum Step {
    /// Run the task at this index next.
    Run(usize),
    /// The series is over.
    Done,
}

/// Decide the next task of a series of `count` tasks after task `current`
/// reported `signal`: quitting ends the series, a restart returns to the
/// first task, and continuing moves on, wrapping to the first task after the
/// last.
pub fn next_step(current: usize, count: usize, signal: Return) -> (step: Step)
    requires
        count >= 1,
        current < count,
    ensures
        step == (match signal {
            Return::Quit => Step::Done,
            Return::Restart => Step::Run(0usize),
            Return::Continue => (if current + 1 == count {
                Step::Run(0usize)
            } else {
                Step::Run((current + 1) as usize)
            }),
        }),
        step matches Step::Run(i) ==> i < count,
{
    match signal {
        Return::Quit => Step::Done,
        Return::Restart => Step::Run(0),
        Return::Continue => {
            if current + 1 == count {
                Step::Run(0)
            } else {
                Step::Run(current + 1)
            }
        },
    }
}

} // verus!
