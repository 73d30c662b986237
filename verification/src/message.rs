//! The tagged messages that travel between adjacent stages.

use vstd::prelude::*;

verus! {

/// Human-readable description of why an item failed.
pub type TError = String;

/// What a stage's transform returns for one item.
pub type TResult<T> = Result<T, TError>;

/// One slot on the wire between two adjacent stages.
#[derive(Debug, PartialEq)]
pub enum Message<T> {
    /// The shutdown sentinel. It carries nothing and ends every worker it reaches.
    Quit,
    /// A failed item: the error bypasses every remaining transform.
    Skip(TError),
    /// A live item, or an error that the sending side has not yet turned into `Skip`.
    Work(TResult<T>),
}

impl<T> Message<T> {
    /// True for the shutdown sentinel only.
    pub open spec fn is_terminal(self) -> bool {
        self is Quit
    }

    /// True where the message stands for a failed item: `Skip`, or `Work` holding an error.
    pub open spec fn is_failure(self) -> bool {
        match self {
            Message::Quit => false,
            Message::Skip(_) => true,
            Message::Work(r) => r is Err,
        }
    }

    /// The error of a failed item.
    pub open spec fn failure(self) -> TError
        recommends
            self.is_failure(),
    {
        match self {
            Message::Skip(e) => e,
            Message::Work(Err(e)) => e,
            _ => arbitrary(),
        }
    }

    /// Tells the shutdown sentinel from every other message.
    pub fn is_quit(&self) -> (b: bool)
        ensures
            b == self.is_terminal(),
    {
        match self {
            Message::Quit => true,
            _ => false,
        }
    }
}

} // verus!
