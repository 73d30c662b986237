//! The bounded mailbox between two adjacent stages.

use vstd::prelude::*;
use std::collections::VecDeque;
use crate::message::Message;

verus! {

/// Capacity of a mailbox where the caller names none.
pub const DEFAULT_CAPACITY: usize = 100;

/// A bounded first-in, first-out mailbox with one sending and one receiving side.
///
/// Its model is its whole history: everything that was ever sent into it, in
/// order, and how many of those messages the receiving side has taken. What
/// is still buffered is the rest.
pub struct Channel<T> {
    queue: VecDeque<Message<T>>,
    limit: usize,
    log: Ghost<Seq<Message<T>>>,
}

impl<T> Channel<T> {
    /// Every message ever accepted by this mailbox, oldest first.
    pub closed spec fn sent(&self) -> Seq<Message<T>> {
        self.log@
    }

    /// How many of the sent messages have been received.
    pub closed spec fn taken(&self) -> nat {
        (self.log@.len() - self.queue@.len()) as nat
    }

    /// The most messages the mailbox buffers at a time.
    pub closed spec fn capacity(&self) -> nat {
        self.limit as nat
    }

    /// The invariant of a mailbox: a positive capacity, never more buffered
    /// than that, and a buffer that holds exactly the sent messages not yet taken.
    pub closed spec fn wf(&self) -> bool {
        &&& self.limit > 0
        &&& self.queue@.len() <= self.limit
        &&& self.queue@.len() <= self.log@.len()
        &&& self.queue@ == self.log@.skip(self.log@.len() - self.queue@.len())
    }

    /// The messages sent and not yet taken, oldest first.
    pub open spec fn buffered(&self) -> Seq<Message<T>> {
        self.sent().skip(self.taken() as int)
    }

    /// Number of free slots.
    pub open spec fn free(&self) -> nat {
        (self.capacity() - (self.sent().len() - self.taken())) as nat
    }

    /// No message is waiting: a receive would block.
    pub open spec fn is_empty(&self) -> bool {
        self.taken() == self.sent().len()
    }

    /// No slot is free: a send would block.
    pub open spec fn is_full(&self) -> bool {
        self.sent().len() - self.taken() == self.capacity()
    }

    /// What a well-formed mailbox guarantees about its counters.
    pub proof fn lemma_bounds(&self)
        requires
            self.wf(),
        ensures
            self.capacity() > 0,
            self.taken() <= self.sent().len(),
            self.sent().len() - self.taken() <= self.capacity(),
            self.capacity() <= usize::MAX,
    {
    }

    /// An empty mailbox that buffers up to `capacity` messages.
    pub fn new(capacity: usize) -> (ch: Self)
        requires
            capacity > 0,
        ensures
            ch.wf(),
            ch.capacity() == capacity,
            ch.sent() == Seq::<Message<T>>::empty(),
            ch.taken() == 0,
    {
        let ch = Channel { queue: VecDeque::new(), limit: capacity, log: Ghost(Seq::empty()) };
        assert(ch.queue@ =~= ch.log@.skip(0));
        ch
    }

    /// Whether a send would find no free slot.
    pub fn full(&self) -> (b: bool)
        requires
            self.wf(),
        ensures
            b == self.is_full(),
    {
        self.queue.len() >= self.limit
    }

    /// How many messages are buffered.
    pub fn len(&self) -> (n: usize)
        requires
            self.wf(),
        ensures
            n == self.sent().len() - self.taken(),
    {
        self.queue.len()
    }

    /// Whether a receive would find no message.
    pub fn empty(&self) -> (b: bool)
        requires
            self.wf(),
        ensures
            b == self.is_empty(),
    {
        self.queue.len() == 0
    }
}

/// A history that only grew still has every old message at its old position.
pub proof fn lemma_prefix<T>(before: Seq<T>, after: Seq<T>)
    requires
        before.is_prefix_of(after),
    ensures
        before.len() <= after.len(),
        forall|i: int| 0 <= i < before.len() ==> #[trigger] after[i] == before[i],
        forall|n: int| 0 <= n <= before.len() ==> #[trigger] after.take(n) == before.take(n),
{
    assert(before =~= after.subrange(0, before.len() as int));
    assert forall|n: int| 0 <= n <= before.len() implies #[trigger] after.take(n) == before.take(
        n,
    ) by {
        assert(after.take(n) =~= before.take(n));
    }
}

/// A history that grew twice has grown.
pub proof fn lemma_prefix_transitive<T>(first: Seq<T>, second: Seq<T>, third: Seq<T>)
    requires
        first.is_prefix_of(second),
        second.is_prefix_of(third),
    ensures
        first.is_prefix_of(third),
{
    lemma_prefix(first, second);
    lemma_prefix(second, third);
    assert(first =~= third.subrange(0, first.len() as int));
}

/// Sends without blocking. A full mailbox hands the message back and stays
/// as it was; otherwise the message becomes the newest one sent.
pub fn try_send<T>(sender: &mut Channel<T>, msg: Message<T>) -> (r: Result<(), Message<T>>)
    requires
        old(sender).wf(),
    ensures
        final(sender).wf(),
        final(sender).capacity() == old(sender).capacity(),
        final(sender).taken() == old(sender).taken(),
        old(sender).is_full() ==> r == Err::<(), Message<T>>(msg) && *final(sender) == *old(sender),
        !old(sender).is_full() ==> r is Ok && final(sender).sent() == old(sender).sent().push(msg),
{
    if sender.queue.len() >= sender.limit {
        return Err(msg);
    }
    proof {
        let log = sender.log@;
        let q = sender.queue@;
        assert(log.push(msg).skip(log.len() - q.len()) =~= q.push(msg));
    }
    sender.log = Ghost(sender.log@.push(msg));
    sender.queue.push_back(msg);
    Ok(())
}

/// Receives without blocking. An empty mailbox yields nothing and stays as
/// it was; otherwise the oldest message not yet taken is handed out.
pub fn try_receive<T>(receiver: &mut Channel<T>) -> (r: Option<Message<T>>)
    requires
        old(receiver).wf(),
    ensures
        final(receiver).wf(),
        final(receiver).capacity() == old(receiver).capacity(),
        final(receiver).sent() == old(receiver).sent(),
        old(receiver).is_empty() ==> r is None && *final(receiver) == *old(receiver),
        !old(receiver).is_empty() ==> r == Some(old(receiver).sent()[old(receiver).taken() as int])
            && final(receiver).taken() == old(receiver).taken() + 1,
{
    if receiver.queue.len() == 0 {
        return None;
    }
    proof {
        let log = receiver.log@;
        let q = receiver.queue@;
        assert(q.subrange(1, q.len() as int) =~= log.skip(log.len() - q.len() + 1));
        assert(q[0] == log[log.len() - q.len()]);
    }
    receiver.queue.pop_front()
}

} // verus!
