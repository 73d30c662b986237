//! Chains of stages: the first mailbox, and every stage appended to it.
//!
//! A chain is built from left to right. [`Inlet`] is the mailbox that the
//! producer fills; [`Stage`] appends one worker and the mailbox it writes to.
//! The workers take turns on the caller's thread: a worker runs until it would
//! have to wait, and then the next one gets its turn.
//!
//! A verified caller is generic over the types of its transforms and says
//! what it knows of them over `call_ensures`. The contracts then give the
//! result for each item, through [`Chain::transfer`].

use vstd::prelude::*;
use crate::channel::{lemma_prefix, lemma_prefix_transitive, try_receive, try_send, Channel};
use crate::message::{Message, TError, TResult};
use crate::worker::{
    forwards, lemma_forwards_keeps_sentinel, relayed, run_length, status_of, total, worker,
    WorkerStatus,
};

verus! {

/// Only the last message of `log` can be the sentinel.
pub open spec fn sentinel_last<T>(log: Seq<Message<T>>) -> bool {
    forall|i: int| 0 <= i < log.len() - 1 ==> !(#[trigger] log[i]).is_terminal()
}

/// The messages that have left the chain through its last mailbox, oldest first.
pub open spec fn delivered<C: Chain>(chain: &C) -> Seq<Message<C::Out>> {
    chain.exit().sent().take(chain.exit().taken() as int)
}

/// What no operation on a chain changes: the number of stages, their
/// transforms, and the capacity of the mailboxes.
pub open spec fn unchanged_stages<C: Chain>(after: &C, before: &C) -> bool {
    &&& after.stages() == before.stages()
    &&& after.capacity() == before.capacity()
    &&& after.transforms() == before.transforms()
}

/// A linear chain of mailboxes and workers with one way in and one way out.
pub trait Chain: Sized {
    /// Payload type of the messages that enter the chain.
    type In;

    /// Payload type of the messages that leave it.
    type Out;

    /// The types of the transforms, nested from the first stage outwards.
    type Transforms;

    /// The invariant of the chain: every mailbox is well-formed, and every
    /// worker has forwarded exactly one message for each message it took.
    spec fn wf(&self) -> bool;

    /// Number of workers.
    spec fn stages(&self) -> nat;

    /// Every message ever accepted into the first mailbox, oldest first.
    spec fn submitted(&self) -> Seq<Message<Self::In>>;

    /// How many messages were ever accepted into the first mailbox.
    spec fn entered(&self) -> nat;

    /// The last mailbox, from which the consumer takes.
    spec fn exit(&self) -> Channel<Self::Out>;

    /// Number of messages buffered in all mailboxes together.
    spec fn buffered(&self) -> nat;

    /// Number of messages that all mailboxes together can buffer.
    spec fn capacity(&self) -> nat;

    /// The first mailbox is full.
    spec fn saturated(&self) -> bool;

    /// No worker can take another turn: each one has terminated, or waits
    /// for a message, or waits for a free slot.
    spec fn settled(&self) -> bool;

    /// Every worker has forwarded the sentinel and stopped.
    spec fn terminated(&self) -> bool;

    /// `out` is a message that may leave the chain for `msg` entering it.
    spec fn transfer(&self, msg: Message<Self::In>, out: Message<Self::Out>) -> bool;

    /// The transforms of all stages, the first stage first.
    spec fn transforms(&self) -> Self::Transforms;

    /// Whether the chain has at least one worker.
    fn has_stages(&self) -> (b: bool)
        requires
            self.wf(),
        ensures
            b == (self.stages() > 0),
    ;

    /// Whether the first mailbox is full.
    fn is_saturated(&self) -> (b: bool)
        requires
            self.wf(),
        ensures
            b == self.saturated(),
    ;

    /// Sends into the first mailbox without blocking. A full mailbox hands
    /// the message back and nothing changes.
    fn offer(&mut self, msg: Message<Self::In>) -> (r: Result<(), Message<Self::In>>)
        requires
            old(self).wf(),
        ensures
            final(self).wf(),
            final(self).stages() == old(self).stages(),
            final(self).capacity() == old(self).capacity(),
            final(self).transforms() == old(self).transforms(),
            old(self).saturated() ==> r == Err::<(), Message<Self::In>>(msg) && *final(self)
                == *old(self),
            !old(self).saturated() ==> {
                &&& r is Ok
                &&& final(self).submitted() == old(self).submitted().push(msg)
                &&& final(self).buffered() == old(self).buffered() + 1
                &&& final(self).exit().taken() == old(self).exit().taken()
                &&& old(self).exit().sent().is_prefix_of(final(self).exit().sent())
            },
    ;

    /// Receives from the last mailbox without blocking. An empty mailbox
    /// yields nothing and nothing changes.
    fn take(&mut self) -> (r: Option<Message<Self::Out>>)
        requires
            old(self).wf(),
        ensures
            final(self).wf(),
            final(self).stages() == old(self).stages(),
            final(self).capacity() == old(self).capacity(),
            final(self).transforms() == old(self).transforms(),
            old(self).exit().is_empty() ==> r is None && *final(self) == *old(self),
            !old(self).exit().is_empty() ==> {
                &&& r == Some(old(self).exit().sent()[old(self).exit().taken() as int])
                &&& final(self).submitted() == old(self).submitted()
                &&& final(self).buffered() == old(self).buffered() - 1
                &&& final(self).exit().taken() == old(self).exit().taken() + 1
                &&& final(self).exit().sent() == old(self).exit().sent()
            },
    ;

    /// Runs the worker of the stage that follows this chain: it reads the
    /// chain's last mailbox and writes to `sender`.
    fn relay<N, G: Fn(Self::Out) -> TResult<N>>(
        &mut self,
        process: &G,
        sender: &mut Channel<N>,
    ) -> (status: WorkerStatus)
        requires
            old(self).wf(),
            old(sender).wf(),
            total(*process),
        ensures
            final(self).wf(),
            final(sender).wf(),
            final(self).stages() == old(self).stages(),
            final(self).capacity() == old(self).capacity(),
            final(self).transforms() == old(self).transforms(),
            final(self).submitted() == old(self).submitted(),
            relayed(*process, old(self).exit(), final(self).exit(), *old(sender), *final(sender)),
            status == status_of(old(self).exit(), final(self).exit(), *final(sender)),
            status is AwaitingCapacity ==> final(sender).is_full(),
            final(self).buffered() == old(self).buffered() - (final(self).exit().taken() - old(
                self,
            ).exit().taken()),
            final(self).exit().taken() == old(self).exit().taken() + run_length(
                old(self).exit().buffered(),
                old(sender).free(),
            ),
            final(self).exit().taken() == old(self).exit().taken() ==> *final(self) == *old(self)
                && *final(sender) == *old(sender),
    ;

    /// Lets the workers take turns until none of them can go on.
    ///
    /// Messages move towards the exit as far as the free slots allow.
    /// Nothing enters or leaves the chain.
    fn settle(&mut self)
        requires
            old(self).wf(),
        ensures
            final(self).wf(),
            final(self).settled(),
            final(self).stages() == old(self).stages(),
            final(self).capacity() == old(self).capacity(),
            final(self).transforms() == old(self).transforms(),
            final(self).submitted() == old(self).submitted(),
            final(self).buffered() == old(self).buffered(),
            final(self).exit().taken() == old(self).exit().taken(),
            old(self).exit().sent().is_prefix_of(final(self).exit().sent()),
    ;

    /// What the invariant says about the chain as a whole: the mailboxes
    /// hold exactly the messages submitted and not yet delivered, and the
    /// message at each position of the last mailbox's history answers the
    /// submitted message at the same position.
    proof fn lemma_invariant(&self)
        requires
            self.wf(),
        ensures
            self.exit().wf(),
            self.entered() == self.submitted().len(),
            self.capacity() > 0,
            self.buffered() <= self.capacity(),
            self.buffered() == self.capacity() ==> self.saturated(),
            self.buffered() + self.exit().taken() == self.submitted().len(),
            self.exit().sent().len() <= self.submitted().len(),
            self.exit().sent().len() - self.exit().taken() <= self.buffered(),
            forall|i: int|
                0 <= i < self.exit().sent().len() ==> self.transfer(
                    self.submitted()[i],
                    #[trigger] self.exit().sent()[i],
                ),
            sentinel_last(self.submitted()) ==> sentinel_last(self.exit().sent()),
    ;

    /// What a settled chain looks like when nothing follows a sentinel: the
    /// buffered messages have moved as far towards the exit as they can.
    proof fn lemma_settled(&self)
        requires
            self.wf(),
            self.settled(),
            sentinel_last(self.submitted()),
        ensures
            self.exit().is_empty() ==> self.buffered() == 0,
            self.saturated() ==> self.buffered() == self.capacity(),
            self.exit().sent().len() - self.exit().taken() == if self.buffered()
                <= self.exit().capacity() {
                self.buffered()
            } else {
                self.exit().capacity()
            },
    ;

    /// Once the sentinel has reached the last mailbox, every worker has stopped.
    proof fn lemma_sentinel_stops_workers(&self, at: int)
        requires
            self.wf(),
            0 <= at < self.exit().sent().len(),
            self.exit().sent()[at].is_terminal(),
        ensures
            self.terminated(),
    ;

    /// What the chain does to each kind of message.
    proof fn lemma_transfer(&self, msg: Message<Self::In>, out: Message<Self::Out>)
        requires
            self.transfer(msg, out),
        ensures
            out.is_terminal() <==> msg.is_terminal(),
            msg.is_failure() ==> out.is_failure() && out.failure() == msg.failure(),
            msg matches Message::Skip(e) ==> out == Message::<Self::Out>::Skip(e),
            self.stages() > 0 ==> !(out matches Message::Work(Err(_))),
            self.stages() > 0 ==> (msg matches Message::Work(Err(e)) ==> out == Message::<
                Self::Out,
            >::Skip(e)),
    ;

    /// A failed item and the sentinel pass through every chain.
    proof fn lemma_passes(&self, e: TError)
        ensures
            self.transfer(Message::Skip(e), Message::Skip(e)),
            self.transfer(Message::Quit, Message::Quit),
    ;

    /// Chains with the same transforms treat every message alike.
    proof fn lemma_same_transforms(&self, other: &Self)
        requires
            self.transforms() == other.transforms(),
        ensures
            forall|msg: Message<Self::In>, out: Message<Self::Out>|
                self.transfer(msg, out) == #[trigger] other.transfer(msg, out),
    ;
}

/// The chain without a stage: the mailbox that the producer sends into.
pub struct Inlet<T> {
    channel: Channel<T>,
}

impl<T> Inlet<T> {
    /// An empty first mailbox that buffers up to `capacity` messages.
    pub fn new(capacity: usize) -> (inlet: Self)
        requires
            capacity > 0,
        ensures
            inlet.wf(),
            inlet.stages() == 0,
            inlet.capacity() == capacity,
            inlet.entered() == 0,
            inlet.submitted() == Seq::<Message<T>>::empty(),
    {
        Inlet { channel: Channel::new(capacity) }
    }
}

impl<T> Chain for Inlet<T> {
    type In = T;

    type Out = T;

    type Transforms = ();

    closed spec fn wf(&self) -> bool {
        self.channel.wf()
    }

    open spec fn stages(&self) -> nat {
        0
    }

    closed spec fn submitted(&self) -> Seq<Message<T>> {
        self.channel.sent()
    }

    closed spec fn entered(&self) -> nat {
        self.channel.sent().len()
    }

    closed spec fn exit(&self) -> Channel<T> {
        self.channel
    }

    closed spec fn buffered(&self) -> nat {
        (self.channel.sent().len() - self.channel.taken()) as nat
    }

    closed spec fn capacity(&self) -> nat {
        self.channel.capacity()
    }

    closed spec fn saturated(&self) -> bool {
        self.channel.is_full()
    }

    open spec fn settled(&self) -> bool {
        true
    }

    open spec fn terminated(&self) -> bool {
        true
    }

    open spec fn transfer(&self, msg: Message<T>, out: Message<T>) -> bool {
        out == msg
    }

    open spec fn transforms(&self) -> () {
        ()
    }

    fn has_stages(&self) -> (b: bool) {
        false
    }

    fn is_saturated(&self) -> (b: bool) {
        self.channel.full()
    }

    fn offer(&mut self, msg: Message<T>) -> (r: Result<(), Message<T>>) {
        proof {
            self.channel.lemma_bounds();
        }
        try_send(&mut self.channel, msg)
    }

    fn take(&mut self) -> (r: Option<Message<T>>) {
        proof {
            self.channel.lemma_bounds();
        }
        try_receive(&mut self.channel)
    }

    fn relay<N, G: Fn(T) -> TResult<N>>(&mut self, process: &G, sender: &mut Channel<N>) -> (status:
        WorkerStatus) {
        proof {
            self.channel.lemma_bounds();
        }
        let status = worker(&mut self.channel, sender, process);
        proof {
            self.channel.lemma_bounds();
        }
        status
    }

    fn settle(&mut self) {
        proof {
            self.channel.lemma_bounds();
        }
    }

    proof fn lemma_invariant(&self) {
        self.channel.lemma_bounds();
    }

    proof fn lemma_settled(&self) {
        self.channel.lemma_bounds();
    }

    proof fn lemma_sentinel_stops_workers(&self, at: int) {
    }

    proof fn lemma_transfer(&self, msg: Message<T>, out: Message<T>) {
    }

    proof fn lemma_passes(&self, e: TError) {
    }

    proof fn lemma_same_transforms(&self, other: &Self) {
    }
}

/// A chain with one more stage: the chain `upstream`, a worker that reads
/// its last mailbox, and the mailbox that this worker writes to.
pub struct Stage<U, O, F> {
    upstream: U,
    process: F,
    outbox: Channel<O>,
    done: bool,
}

impl<U: Chain, O, F: Fn(U::Out) -> TResult<O>> Stage<U, O, F> {
    /// The transform of the last stage.
    pub closed spec fn process(&self) -> F {
        self.process
    }

    /// The chain in front of the last stage.
    pub closed spec fn upstream(&self) -> U {
        self.upstream
    }

    /// The last worker took the sentinel as its latest message.
    pub open spec fn sentinel_taken(&self) -> bool {
        let inbox = self.upstream().exit();
        inbox.taken() > 0 && inbox.sent()[inbox.taken() - 1].is_terminal()
    }

    /// Appends a stage to a chain that nothing has entered yet: a worker that
    /// runs `process`, and behind it an empty mailbox of the given capacity.
    pub fn new(upstream: U, process: F, capacity: usize) -> (stage: Self)
        requires
            upstream.wf(),
            upstream.entered() == 0,
            total(process),
            capacity > 0,
        ensures
            stage.wf(),
            stage.entered() == 0,
            stage.upstream() == upstream,
            stage.process() == process,
            stage.stages() == upstream.stages() + 1,
            stage.capacity() == upstream.capacity() + capacity,
            stage.submitted() == Seq::<Message<U::In>>::empty(),
            stage.settled() == upstream.settled(),
    {
        proof {
            upstream.lemma_invariant();
            upstream.exit().lemma_bounds();
            assert(upstream.submitted() =~= Seq::<Message<U::In>>::empty());
        }
        Stage { upstream, process, outbox: Channel::new(capacity), done: false }
    }
}

impl<U: Chain, O, F: Fn(U::Out) -> TResult<O>> Chain for Stage<U, O, F> {
    type In = U::In;

    type Out = O;

    type Transforms = (U::Transforms, F);

    closed spec fn wf(&self) -> bool {
        let inbox = self.upstream.exit();
        &&& self.upstream.wf()
        &&& self.outbox.wf()
        &&& total(self.process)
        &&& self.outbox.sent().len() == inbox.taken()
        &&& forall|i: int|
            0 <= i < self.outbox.sent().len() ==> forwards(
                self.process,
                inbox.sent()[i],
                #[trigger] self.outbox.sent()[i],
            )
        &&& forall|i: int| 0 <= i < inbox.taken() - 1 ==> !(#[trigger] inbox.sent()[i]).is_terminal()
        &&& self.done == self.sentinel_taken()
    }

    open spec fn stages(&self) -> nat {
        self.upstream().stages() + 1
    }

    closed spec fn submitted(&self) -> Seq<Message<U::In>> {
        self.upstream.submitted()
    }

    closed spec fn entered(&self) -> nat {
        self.upstream.entered()
    }

    closed spec fn exit(&self) -> Channel<O> {
        self.outbox
    }

    closed spec fn buffered(&self) -> nat {
        (self.upstream.buffered() + self.outbox.sent().len() - self.outbox.taken()) as nat
    }

    closed spec fn capacity(&self) -> nat {
        self.upstream.capacity() + self.outbox.capacity()
    }

    closed spec fn saturated(&self) -> bool {
        self.upstream.saturated()
    }

    closed spec fn settled(&self) -> bool {
        &&& self.upstream.settled()
        &&& (self.done || self.upstream.exit().is_empty() || self.outbox.is_full())
    }

    closed spec fn terminated(&self) -> bool {
        self.upstream.terminated() && self.done
    }

    open spec fn transfer(&self, msg: Message<U::In>, out: Message<O>) -> bool {
        exists|mid: Message<U::Out>|
            #[trigger] self.upstream().transfer(msg, mid) && forwards(self.process(), mid, out)
    }

    open spec fn transforms(&self) -> (U::Transforms, F) {
        (self.upstream().transforms(), self.process())
    }

    fn has_stages(&self) -> (b: bool) {
        true
    }

    fn is_saturated(&self) -> (b: bool) {
        self.upstream.is_saturated()
    }

    fn offer(&mut self, msg: Message<U::In>) -> (r: Result<(), Message<U::In>>) {
        proof {
            self.upstream.lemma_invariant();
            self.upstream.exit().lemma_bounds();
            self.outbox.lemma_bounds();
            assert(self.outbox.sent() =~= self.outbox.sent().subrange(
                0,
                self.outbox.sent().len() as int,
            ));
        }
        let ghost before = self.upstream;
        let r = self.upstream.offer(msg);
        proof {
            if r is Ok {
                lemma_prefix(before.exit().sent(), self.upstream.exit().sent());
            }
        }
        r
    }

    fn take(&mut self) -> (r: Option<Message<O>>) {
        proof {
            self.outbox.lemma_bounds();
        }
        try_receive(&mut self.outbox)
    }

    fn relay<N, G: Fn(O) -> TResult<N>>(
        &mut self,
        process: &G,
        sender: &mut Channel<N>,
    ) -> (status: WorkerStatus) {
        proof {
            self.outbox.lemma_bounds();
        }
        let status = worker(&mut self.outbox, sender, process);
        proof {
            self.outbox.lemma_bounds();
        }
        status
    }

    fn settle(&mut self) {
        let ghost start = *self;
        let mut moved = true;
        proof {
            self.outbox.lemma_bounds();
        }
        while moved
            invariant
                self.wf(),
                !moved ==> self.settled(),
                self.upstream.stages() == start.upstream.stages(),
                self.upstream.capacity() == start.upstream.capacity(),
                self.upstream.transforms() == start.upstream.transforms(),
                self.upstream.submitted() == start.upstream.submitted(),
                self.process == start.process,
                self.outbox.capacity() == start.outbox.capacity(),
                self.outbox.taken() == start.outbox.taken(),
                self.buffered() == start.buffered(),
                start.outbox.sent().is_prefix_of(self.outbox.sent()),
            decreases self.upstream.buffered() + (if moved { 1nat } else { 0nat }),
        {
            let ghost before = *self;
            self.upstream.settle();
            proof {
                before.upstream.lemma_invariant();
                before.upstream.exit().lemma_bounds();
                self.outbox.lemma_bounds();
                lemma_prefix(before.upstream.exit().sent(), self.upstream.exit().sent());
            }
            if self.done {
                moved = false;
            } else {
                let ghost mid = *self;
                let held: usize = self.outbox.len();
                let status = self.upstream.relay(&self.process, &mut self.outbox);
                if let WorkerStatus::Terminated = status {
                    self.done = true;
                }
                proof {
                    let inbox = self.upstream.exit();
                    let base = mid.outbox.sent().len() as int;
                    mid.upstream.lemma_invariant();
                    mid.upstream.exit().lemma_bounds();
                    mid.outbox.lemma_bounds();
                    self.outbox.lemma_bounds();
                    assert forall|i: int| 0 <= i < self.outbox.sent().len() implies forwards(
                        self.process,
                        inbox.sent()[i],
                        #[trigger] self.outbox.sent()[i],
                    ) by {
                        if i < base {
                            assert(self.outbox.sent()[i] == self.outbox.sent().take(base)[i]);
                        }
                    }
                    assert(mid.outbox.sent().is_prefix_of(self.outbox.sent())) by {
                        assert(mid.outbox.sent() =~= self.outbox.sent().subrange(0, base));
                    }
                    lemma_prefix_transitive(
                        start.outbox.sent(),
                        mid.outbox.sent(),
                        self.outbox.sent(),
                    );
                }
                moved = self.outbox.len() != held;
            }
        }
    }

    proof fn lemma_invariant(&self) {
        let inbox = self.upstream.exit();
        self.upstream.lemma_invariant();
        self.outbox.lemma_bounds();
        inbox.lemma_bounds();
        assert forall|i: int| 0 <= i < self.exit().sent().len() implies self.transfer(
            self.submitted()[i],
            #[trigger] self.exit().sent()[i],
        ) by {
            assert(self.upstream().transfer(self.submitted()[i], inbox.sent()[i]));
        }
        if sentinel_last(self.submitted()) {
            assert forall|i: int| 0 <= i < self.outbox.sent().len() - 1 implies !(
            #[trigger] self.outbox.sent()[i]).is_terminal() by {
                lemma_forwards_keeps_sentinel(self.process, inbox.sent()[i], self.outbox.sent()[i]);
            }
        }
    }

    proof fn lemma_settled(&self) {
        let inbox = self.upstream.exit();
        self.upstream.lemma_invariant();
        self.upstream.lemma_settled();
        self.outbox.lemma_bounds();
        inbox.lemma_bounds();
        if self.done {
            assert(inbox.sent()[inbox.taken() - 1].is_terminal());
            assert(inbox.is_empty());
        }
    }

    proof fn lemma_sentinel_stops_workers(&self, at: int) {
        let inbox = self.upstream.exit();
        self.upstream.lemma_invariant();
        inbox.lemma_bounds();
        lemma_forwards_keeps_sentinel(self.process, inbox.sent()[at], self.outbox.sent()[at]);
        self.upstream.lemma_sentinel_stops_workers(at);
    }

    proof fn lemma_transfer(&self, msg: Message<U::In>, out: Message<O>) {
        let mid = choose|mid: Message<U::Out>|
            #[trigger] self.upstream().transfer(msg, mid) && forwards(self.process(), mid, out);
        self.upstream.lemma_transfer(msg, mid);
        lemma_forwards_keeps_sentinel(self.process, mid, out);
    }

    proof fn lemma_passes(&self, e: TError) {
        self.upstream.lemma_passes(e);
        assert(self.upstream().transfer(Message::Skip(e), Message::Skip(e)));
        assert(forwards(self.process(), Message::<U::Out>::Skip(e), Message::<O>::Skip(e)));
        assert(self.upstream().transfer(Message::Quit, Message::Quit));
        assert(forwards(self.process(), Message::<U::Out>::Quit, Message::<O>::Quit));
    }

    proof fn lemma_same_transforms(&self, other: &Self) {
        self.upstream.lemma_same_transforms(&other.upstream);
        assert forall|msg: Message<U::In>, out: Message<O>|
            self.transfer(msg, out) == #[trigger] other.transfer(msg, out) by {
            if self.transfer(msg, out) {
                let mid = choose|mid: Message<U::Out>|
                    #[trigger] self.upstream().transfer(msg, mid) && forwards(
                        self.process(),
                        mid,
                        out,
                    );
                assert(other.upstream().transfer(msg, mid));
            }
            if other.transfer(msg, out) {
                let mid = choose|mid: Message<U::Out>|
                    #[trigger] other.upstream().transfer(msg, mid) && forwards(
                        other.process(),
                        mid,
                        out,
                    );
                assert(self.upstream().transfer(msg, mid));
            }
        }
    }
}

} // verus!
