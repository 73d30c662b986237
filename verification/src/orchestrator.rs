//! The handle through which a caller drives a chain of stages: it submits
//! items, receives results and shuts the chain down.

use vstd::prelude::*;
use crate::chain::{delivered, sentinel_last, unchanged_stages, Chain};
use crate::channel::{lemma_prefix, lemma_prefix_transitive};
use crate::lifecycle::Lifecycle;
use crate::message::{Message, TError};

verus! {

/// Why an item or an error was not accepted. The value comes back to the caller.
#[derive(Debug, PartialEq)]
pub enum SubmitError<T> {
    /// The pipeline is no longer running.
    NotRunning(T),
    /// Every mailbox is full: the call would block until the consumer
    /// receives a result.
    Full(T),
}

/// The refusal that a submission meets in `state`: a running pipeline is
/// full, any other is not running.
pub open spec fn refusal<T>(state: Lifecycle, value: T) -> SubmitError<T> {
    if state is Running {
        SubmitError::Full(value)
    } else {
        SubmitError::NotRunning(value)
    }
}

/// The pipeline was asked to shut down when it was not running.
#[derive(Debug, PartialEq, Eq, Clone, Copy)]
pub struct NotRunning;

/// A chain of at least one stage, with its lifecycle.
///
/// Between two calls the chain is settled: every buffered message has moved
/// as far towards the exit as the free slots allow.
pub struct Pipeline<C> {
    chain: C,
    state: Lifecycle,
}

impl<C: Chain> Pipeline<C> {
    /// The chain that the handle drives.
    pub closed spec fn chain(&self) -> C {
        self.chain
    }

    /// Where the pipeline stands in its lifecycle.
    pub closed spec fn state(&self) -> Lifecycle {
        self.state
    }

    /// Every message that entered the pipeline, oldest first.
    pub open spec fn submitted(&self) -> Seq<Message<C::In>> {
        self.chain().submitted()
    }

    /// Every message that left the pipeline, oldest first, whether it was
    /// handed to the caller or discarded during shutdown.
    pub open spec fn received(&self) -> Seq<Message<C::Out>> {
        delivered(&self.chain())
    }

    /// Number of messages inside the pipeline.
    pub open spec fn in_flight(&self) -> nat {
        self.chain().buffered()
    }

    /// Number of messages that the pipeline can hold.
    pub open spec fn capacity(&self) -> nat {
        self.chain().capacity()
    }

    /// The invariant of the handle.
    ///
    /// While the pipeline runs, no sentinel has entered it. Once it has
    /// terminated, exactly one sentinel has entered, as the last message,
    /// and nothing is left inside.
    pub open spec fn wf(&self) -> bool {
        &&& self.chain().wf()
        &&& self.chain().settled()
        &&& self.chain().stages() > 0
        &&& self.state() is Running || self.state() is Terminated
        &&& self.state() is Running ==> forall|i: int|
            0 <= i < self.submitted().len() ==> !(#[trigger] self.submitted()[i]).is_terminal()
        &&& self.state() is Terminated ==> {
            &&& self.submitted().len() > 0
            &&& self.submitted().last().is_terminal()
            &&& sentinel_last(self.submitted())
            &&& self.in_flight() == 0
        }
    }

    /// A submission would be accepted: the pipeline runs and has a free slot.
    pub open spec fn accepts(&self) -> bool {
        self.state() is Running && self.in_flight() < self.capacity()
    }

    /// Starts a pipeline on a chain that nothing has entered yet. A chain
    /// without a stage is refused.
    pub fn build(chain: C) -> (r: Option<Self>)
        requires
            chain.wf(),
            chain.entered() == 0,
        ensures
            r is Some <==> chain.stages() > 0,
            r matches Some(p) ==> {
                &&& p.wf()
                &&& p.state() is Running
                &&& unchanged_stages(&p.chain(), &chain)
                &&& p.submitted().len() == 0
                &&& p.received().len() == 0
                &&& p.in_flight() == 0
            },
    {
        if !chain.has_stages() {
            return None;
        }
        proof {
            chain.lemma_invariant();
        }
        let mut chain = chain;
        let mut state = Lifecycle::Building;
        chain.settle();
        state.start();
        proof {
            chain.lemma_invariant();
            chain.exit().lemma_bounds();
        }
        Some(Pipeline { chain, state })
    }

    /// Whether the pipeline accepts submissions.
    pub fn is_running(&self) -> (b: bool)
        ensures
            b == (self.state() is Running),
    {
        self.state.is_running()
    }

    /// Sends `msg` into the first mailbox, which has a free slot, and lets the workers run.
    fn inject(&mut self, msg: Message<C::In>)
        requires
            old(self).wf(),
            old(self).accepts(),
            !msg.is_terminal(),
        ensures
            final(self).wf(),
            final(self).state() == old(self).state(),
            unchanged_stages(&final(self).chain(), &old(self).chain()),
            final(self).received() == old(self).received(),
            final(self).submitted() == old(self).submitted().push(msg),
            final(self).in_flight() == old(self).in_flight() + 1,
    {
        proof {
            self.chain.lemma_invariant();
            self.chain.exit().lemma_bounds();
            assert(sentinel_last(self.submitted()));
            self.chain.lemma_settled();
        }
        let ghost before = self.chain;
        let _accepted = self.chain.offer(msg);
        let ghost offered = self.chain;
        self.chain.settle();
        proof {
            let log = before.exit().sent();
            lemma_prefix_transitive(log, offered.exit().sent(), self.chain.exit().sent());
            lemma_prefix(log, self.chain.exit().sent());
            assert forall|i: int| 0 <= i < self.submitted().len() implies !(
            #[trigger] self.submitted()[i]).is_terminal() by {
                if i < before.submitted().len() {
                    assert(self.submitted()[i] == old(self).submitted()[i]);
                }
            }
        }
    }

    /// Submits one item: it enters the first mailbox as `Work`.
    ///
    /// The item comes back if the pipeline is not running, or if every
    /// mailbox is full, where a threaded producer would block.
    pub fn submit(&mut self, item: C::In) -> (r: Result<(), SubmitError<C::In>>)
        requires
            old(self).wf(),
        ensures
            final(self).wf(),
            final(self).state() == old(self).state(),
            unchanged_stages(&final(self).chain(), &old(self).chain()),
            final(self).received() == old(self).received(),
            old(self).accepts() ==> {
                &&& r is Ok
                &&& final(self).submitted() == old(self).submitted().push(Message::Work(Ok(item)))
                &&& final(self).in_flight() == old(self).in_flight() + 1
            },
            !old(self).accepts() ==> {
                &&& r == Err::<(), SubmitError<C::In>>(refusal(old(self).state(), item))
                &&& *final(self) == *old(self)
            },
    {
        if !self.state.is_running() {
            return Err(SubmitError::NotRunning(item));
        }
        proof {
            self.chain.lemma_invariant();
            assert(sentinel_last(self.submitted()));
            self.chain.lemma_settled();
        }
        if self.chain.is_saturated() {
            return Err(SubmitError::Full(item));
        }
        self.inject(Message::Work(Ok(item)));
        Ok(())
    }

    /// Submits a failure that the caller found before the first stage: it
    /// enters the first mailbox as `Skip`.
    ///
    /// The error comes back on the conditions on which `submit` hands back an item.
    pub fn submit_error(&mut self, error: TError) -> (r: Result<(), SubmitError<TError>>)
        requires
            old(self).wf(),
        ensures
            final(self).wf(),
            final(self).state() == old(self).state(),
            unchanged_stages(&final(self).chain(), &old(self).chain()),
            final(self).received() == old(self).received(),
            old(self).accepts() ==> {
                &&& r is Ok
                &&& final(self).submitted() == old(self).submitted().push(Message::Skip(error))
                &&& final(self).in_flight() == old(self).in_flight() + 1
            },
            !old(self).accepts() ==> {
                &&& r == Err::<(), SubmitError<TError>>(refusal(old(self).state(), error))
                &&& *final(self) == *old(self)
            },
    {
        if !self.state.is_running() {
            return Err(SubmitError::NotRunning(error));
        }
        proof {
            self.chain.lemma_invariant();
            assert(sentinel_last(self.submitted()));
            self.chain.lemma_settled();
        }
        if self.chain.is_saturated() {
            return Err(SubmitError::Full(error));
        }
        self.inject(Message::Skip(error));
        Ok(())
    }

    /// Takes the oldest message out of the last mailbox and lets the workers run.
    fn drain_one(&mut self) -> (r: Option<Message<C::Out>>)
        requires
            old(self).chain().wf(),
            old(self).chain().settled(),
            sentinel_last(old(self).submitted()),
        ensures
            final(self).chain().wf(),
            final(self).chain().settled(),
            final(self).state() == old(self).state(),
            unchanged_stages(&final(self).chain(), &old(self).chain()),
            final(self).submitted() == old(self).submitted(),
            old(self).in_flight() == 0 ==> r is None && final(self).received() == old(
                self,
            ).received() && final(self).in_flight() == 0,
            old(self).in_flight() > 0 ==> {
                &&& r matches Some(m)
                &&& final(self).received() == old(self).received().push(m)
                &&& final(self).in_flight() == old(self).in_flight() - 1
                &&& final(self).chain().transfer(
                    old(self).submitted()[old(self).received().len() as int],
                    m,
                )
            },
    {
        proof {
            self.chain.lemma_invariant();
            self.chain.lemma_settled();
            self.chain.exit().lemma_bounds();
        }
        let ghost before = self.chain;
        let r = self.chain.take();
        self.chain.settle();
        proof {
            let log = before.exit().sent();
            let n = before.exit().taken() as int;
            lemma_prefix(log, self.chain.exit().sent());
            if before.buffered() > 0 {
                assert(log.take(n + 1) =~= log.take(n).push(log[n]));
                before.lemma_same_transforms(&self.chain);
            }
        }
        r
    }

    /// Receives the next result without blocking.
    ///
    /// Results come out in the order in which their items went in. `None`
    /// says that nothing is in flight, where a threaded consumer would block.
    pub fn try_receive_result(&mut self) -> (r: Option<Message<C::Out>>)
        requires
            old(self).wf(),
        ensures
            final(self).wf(),
            final(self).state() == old(self).state(),
            unchanged_stages(&final(self).chain(), &old(self).chain()),
            final(self).submitted() == old(self).submitted(),
            old(self).in_flight() == 0 ==> r is None && final(self).received() == old(
                self,
            ).received() && final(self).in_flight() == 0,
            old(self).in_flight() > 0 ==> {
                &&& r matches Some(m)
                &&& !m.is_terminal()
                &&& final(self).received() == old(self).received().push(m)
                &&& final(self).in_flight() == old(self).in_flight() - 1
                &&& final(self).chain().transfer(
                    old(self).submitted()[old(self).received().len() as int],
                    m,
                )
            },
    {
        let r = self.drain_one();
        proof {
            if old(self).in_flight() > 0 {
                old(self).chain().lemma_invariant();
                old(self).chain().exit().lemma_bounds();
                let at = old(self).received().len() as int;
                self.chain.lemma_transfer(old(self).submitted()[at], r->0);
            }
        }
        r
    }

    /// Shuts the pipeline down: sends the sentinel, discards what is still
    /// in flight until the sentinel comes out, and leaves the pipeline
    /// terminated, with every worker stopped.
    ///
    /// Where every mailbox is full, results are discarded first to make
    /// room for the sentinel. A pipeline that is not running is left as it is.
    pub fn shutdown(&mut self) -> (r: Result<(), NotRunning>)
        requires
            old(self).wf(),
        ensures
            final(self).wf(),
            unchanged_stages(&final(self).chain(), &old(self).chain()),
            old(self).state() is Running ==> {
                &&& r is Ok
                &&& final(self).state() is Terminated
                &&& final(self).submitted() == old(self).submitted().push(Message::Quit)
                &&& old(self).received().is_prefix_of(final(self).received())
                &&& final(self).received().len() == final(self).submitted().len()
                &&& final(self).received().last().is_terminal()
                &&& sentinel_last(final(self).received())
                &&& final(self).in_flight() == 0
                &&& final(self).chain().terminated()
            },
            !(old(self).state() is Running) ==> r is Err && *final(self) == *old(self),
    {
        if !self.state.begin_shutdown() {
            return Err(NotRunning);
        }
        let ghost start = *self;
        while self.chain.is_saturated()
            invariant
                self.chain.wf(),
                self.chain.settled(),
                self.state is ShuttingDown,
                unchanged_stages(&self.chain, &start.chain),
                self.submitted() == start.submitted(),
                forall|i: int|
                    0 <= i < self.submitted().len() ==> !(
                    #[trigger] self.submitted()[i]).is_terminal(),
                start.received().is_prefix_of(self.received()),
            decreases self.chain.buffered(),
        {
            proof {
                self.chain.lemma_invariant();
                self.chain.lemma_settled();
            }
            let ghost before = self.received();
            let _discarded = self.drain_one();
            proof {
                lemma_prefix_transitive(start.received(), before, self.received());
            }
        }
        proof {
            self.chain.lemma_invariant();
            self.chain.exit().lemma_bounds();
        }
        let ghost before = self.chain;
        let _accepted = self.chain.offer(Message::Quit);
        let ghost offered = self.chain;
        self.chain.settle();
        proof {
            let log = before.exit().sent();
            lemma_prefix_transitive(log, offered.exit().sent(), self.chain.exit().sent());
            lemma_prefix(log, self.chain.exit().sent());
        }
        let ghost sealed = self.submitted();
        let mut draining = true;
        while draining
            invariant
                self.chain.wf(),
                self.chain.settled(),
                self.state is ShuttingDown,
                unchanged_stages(&self.chain, &start.chain),
                self.submitted() == sealed,
                sealed == start.submitted().push(Message::Quit),
                forall|i: int|
                    0 <= i < start.submitted().len() ==> !(
                    #[trigger] start.submitted()[i]).is_terminal(),
                start.received().is_prefix_of(self.received()),
                draining ==> self.received().len() < sealed.len(),
                !draining ==> self.received().len() == sealed.len() && self.received().last().is_terminal(),
            decreases self.chain.buffered() + (if draining { 1nat } else { 0nat }),
        {
            proof {
                self.chain.lemma_invariant();
                self.chain.exit().lemma_bounds();
                assert(sentinel_last(sealed));
            }
            let ghost before = *self;
            let out = self.drain_one();
            proof {
                self.chain.lemma_invariant();
                self.chain.exit().lemma_bounds();
                let at = before.received().len() as int;
                self.chain.lemma_transfer(sealed[at], out->0);
                lemma_prefix_transitive(start.received(), before.received(), self.received());
            }
            match out {
                Some(msg) => {
                    if msg.is_quit() {
                        draining = false;
                    }
                },
                None => {},
            }
        }
        self.state.finish_shutdown();
        proof {
            self.chain.lemma_invariant();
            self.chain.exit().lemma_bounds();
            self.chain.lemma_sentinel_stops_workers(sealed.len() - 1);
        }
        Ok(())
    }
}

} // verus!
