//! The life of a pipeline, from construction to the end of the last worker.

use vstd::prelude::*;

verus! {

/// Where a pipeline stands. The states follow each other in this order and
/// none is ever entered twice.
#[derive(Debug, PartialEq, Eq, Clone, Copy, Structural)]
pub enum Lifecycle {
    /// Stages are still being added; no worker runs.
    Building,
    /// Items may be submitted and results received.
    Running,
    /// The sentinel is on its way; what is still in flight is being drained.
    ShuttingDown,
    /// The sentinel came out and every worker has stopped.
    Terminated,
}

impl Lifecycle {
    /// Items can be submitted and results received in this state.
    pub open spec fn accepts_work(self) -> bool {
        self is Running
    }

    /// The state that follows, if there is one.
    pub open spec fn successor(self) -> Option<Lifecycle> {
        match self {
            Lifecycle::Building => Some(Lifecycle::Running),
            Lifecycle::Running => Some(Lifecycle::ShuttingDown),
            Lifecycle::ShuttingDown => Some(Lifecycle::Terminated),
            Lifecycle::Terminated => None,
        }
    }

    /// Whether items can be submitted and results received.
    pub fn is_running(&self) -> (b: bool)
        ensures
            b == self.accepts_work(),
    {
        match self {
            Lifecycle::Running => true,
            _ => false,
        }
    }

    /// Moves on to `target` if that is the state that follows, and says
    /// whether it did. Any other request leaves the state as it is.
    pub fn advance_to(&mut self, target: Lifecycle) -> (moved: bool)
        ensures
            moved == (old(self).successor() == Some(target)),
            *final(self) == if moved {
                target
            } else {
                *old(self)
            },
    {
        let next = match self {
            Lifecycle::Building => Lifecycle::Running,
            Lifecycle::Running => Lifecycle::ShuttingDown,
            Lifecycle::ShuttingDown => Lifecycle::Terminated,
            Lifecycle::Terminated => {
                return false;
            },
        };
        if next == target {
            *self = target;
            true
        } else {
            false
        }
    }

    /// Leaves `Building`: the workers start.
    pub fn start(&mut self) -> (moved: bool)
        ensures
            moved == (*old(self) is Building),
            *final(self) == if moved {
                Lifecycle::Running
            } else {
                *old(self)
            },
    {
        self.advance_to(Lifecycle::Running)
    }

    /// Leaves `Running`: from now on nothing is submitted.
    pub fn begin_shutdown(&mut self) -> (moved: bool)
        ensures
            moved == (*old(self) is Running),
            *final(self) == if moved {
                Lifecycle::ShuttingDown
            } else {
                *old(self)
            },
    {
        self.advance_to(Lifecycle::ShuttingDown)
    }

    /// Leaves `ShuttingDown`: the sentinel came out and the workers have stopped.
    pub fn finish_shutdown(&mut self) -> (moved: bool)
        ensures
            moved == (*old(self) is ShuttingDown),
            *final(self) == if moved {
                Lifecycle::Terminated
            } else {
                *old(self)
            },
    {
        self.advance_to(Lifecycle::Terminated)
    }
}

} // verus!
