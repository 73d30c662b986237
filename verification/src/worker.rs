//! The per-stage worker: what it does with one message.

use vstd::prelude::*;
use crate::channel::{try_receive, try_send, Channel};
use crate::message::{Message, TError, TResult};

verus! {

/// What a worker has to do with a message it received, decided before the
/// transform comes into play.
#[derive(Debug, PartialEq)]
pub enum Route<I> {
    /// The sentinel arrived: forward it and stop.
    Stop,
    /// A failed item: forward the error untouched, the transform stays out of it.
    Bypass(TError),
    /// A live item: hand the payload to the transform.
    Apply(I),
}

/// The routing rule as a function of the received message.
pub open spec fn route_of<I>(msg: Message<I>) -> Route<I> {
    match msg {
        Message::Quit => Route::Stop,
        Message::Skip(e) => Route::Bypass(e),
        Message::Work(Err(e)) => Route::Bypass(e),
        Message::Work(Ok(v)) => Route::Apply(v),
    }
}

/// The message that carries a transform's result downstream: a value stays
/// `Work`, an error becomes `Skip`.
pub open spec fn outcome_of<O>(result: TResult<O>) -> Message<O> {
    match result {
        Ok(o) => Message::Work(Ok(o)),
        Err(e) => Message::Skip(e),
    }
}

/// `out` is a message that a worker running `process` may forward after receiving `msg`.
pub open spec fn forwards<I, O, F: Fn(I) -> TResult<O>>(
    process: F,
    msg: Message<I>,
    out: Message<O>,
) -> bool {
    match route_of(msg) {
        Route::Stop => out == Message::<O>::Quit,
        Route::Bypass(e) => out == Message::<O>::Skip(e),
        Route::Apply(v) => exists|r: TResult<O>|
            #[trigger] call_ensures(process, (v,), r) && out == outcome_of(r),
    }
}

/// The transform accepts every payload.
pub open spec fn total<I, O, F: Fn(I) -> TResult<O>>(process: F) -> bool {
    forall|v: I| #[trigger] call_requires(process, (v,))
}

/// Decides what to do with a received message. The transform is not a
/// parameter: a `Skip` or a `Quit` is routed without it.
pub fn route<I>(msg: Message<I>) -> (r: Route<I>)
    ensures
        r == route_of(msg),
{
    match msg {
        Message::Quit => Route::Stop,
        Message::Skip(e) => Route::Bypass(e),
        Message::Work(Err(e)) => Route::Bypass(e),
        Message::Work(Ok(v)) => Route::Apply(v),
    }
}

/// Wraps a transform's result for the next stage.
pub fn outcome<O>(result: TResult<O>) -> (out: Message<O>)
    ensures
        out == outcome_of(result),
{
    match result {
        Ok(o) => Message::Work(Ok(o)),
        Err(e) => Message::Skip(e),
    }
}

/// One turn of a worker: the message to forward for the message received.
pub fn dispatch<I, O, F: Fn(I) -> TResult<O>>(msg: Message<I>, process: &F) -> (out: Message<O>)
    requires
        total(*process),
    ensures
        forwards(*process, msg, out),
{
    match route(msg) {
        Route::Stop => Message::Quit,
        Route::Bypass(e) => Message::Skip(e),
        Route::Apply(v) => {
            let r = process(v);
            outcome(r)
        },
    }
}

/// Why a worker gave up the processor.
#[derive(Debug, PartialEq, Eq, Clone, Copy)]
pub enum WorkerStatus {
    /// It forwarded the sentinel and is finished for good.
    Terminated,
    /// Its inbound mailbox is empty: it waits for the next message.
    AwaitingMessage,
    /// A message is waiting, but the outbound mailbox is full.
    AwaitingCapacity,
}

/// A message that is forwarded is the sentinel exactly when the one received
/// was, and it is never `Work` holding an error.
pub proof fn lemma_forwards_keeps_sentinel<I, O, F: Fn(I) -> TResult<O>>(
    process: F,
    msg: Message<I>,
    out: Message<O>,
)
    requires
        forwards(process, msg, out),
    ensures
        out.is_terminal() <==> msg.is_terminal(),
        !(out matches Message::Work(Err(_))),
{
}

/// How many messages a worker takes in one run, given the messages that
/// wait in its inbound mailbox and the free slots of its outbound one: it
/// goes on until nothing waits, no slot is free, or it has taken the sentinel.
pub open spec fn run_length<I>(pending: Seq<Message<I>>, room: nat) -> nat
    decreases pending.len(),
{
    if pending.len() == 0 || room == 0 {
        0
    } else if pending[0].is_terminal() {
        1
    } else {
        1 + run_length(pending.skip(1), (room - 1) as nat)
    }
}

/// How one run of a worker changes its two mailboxes: `r0`, `s0` are the
/// inbound and the outbound mailbox before the run, `r1`, `s1` after it.
///
/// The worker took some messages from the inbound mailbox, in order, and
/// appended one forwarded message for each to the outbound mailbox. Only the
/// last message it took can be the sentinel.
pub open spec fn relayed<I, O, F: Fn(I) -> TResult<O>>(
    process: F,
    r0: Channel<I>,
    r1: Channel<I>,
    s0: Channel<O>,
    s1: Channel<O>,
) -> bool {
    let first = r0.taken() as int;
    let base = s0.sent().len() as int;
    &&& r1.sent() == r0.sent()
    &&& r1.capacity() == r0.capacity()
    &&& r1.taken() >= r0.taken()
    &&& s1.taken() == s0.taken()
    &&& s1.capacity() == s0.capacity()
    &&& s1.sent().len() == base + (r1.taken() - r0.taken())
    &&& s1.sent().take(base) == s0.sent()
    &&& forall|j: int|
        base <= j < s1.sent().len() ==> forwards(
            process,
            r0.sent()[first + (j - base)],
            #[trigger] s1.sent()[j],
        )
    &&& forall|k: int| first <= k < r1.taken() - 1 ==> !(#[trigger] r0.sent()[k]).is_terminal()
}

/// The worker's run ended by forwarding the sentinel.
pub open spec fn forwarded_sentinel<I>(r0: Channel<I>, r1: Channel<I>) -> bool {
    r1.taken() > r0.taken() && r0.sent()[r1.taken() - 1].is_terminal()
}

/// Why a run that changed the mailboxes from `r0`, `s0` to `r1`, `s1` stopped.
pub open spec fn status_of<I, O>(r0: Channel<I>, r1: Channel<I>, s1: Channel<O>) -> WorkerStatus {
    if forwarded_sentinel(r0, r1) {
        WorkerStatus::Terminated
    } else if r1.is_empty() {
        WorkerStatus::AwaitingMessage
    } else {
        WorkerStatus::AwaitingCapacity
    }
}

/// Runs the worker of one stage for as long as it can go on without waiting.
///
/// Each turn takes the oldest message from `receiver`, decides what to
/// forward for it and appends that to `sender`. The worker stops after
/// forwarding the sentinel, or when it would have to wait: for a message, or
/// for a free slot downstream. It takes no message it cannot forward at once.
pub fn worker<I, O, F: Fn(I) -> TResult<O>>(
    receiver: &mut Channel<I>,
    sender: &mut Channel<O>,
    process: &F,
) -> (status: WorkerStatus)
    requires
        old(receiver).wf(),
        old(sender).wf(),
        total(*process),
    ensures
        final(receiver).wf(),
        final(sender).wf(),
        relayed(*process, *old(receiver), *final(receiver), *old(sender), *final(sender)),
        final(receiver).taken() == old(receiver).taken() + run_length(
            old(receiver).buffered(),
            old(sender).free(),
        ),
        status == status_of(*old(receiver), *final(receiver), *final(sender)),
        status is AwaitingCapacity ==> final(sender).is_full(),
        final(receiver).taken() == old(receiver).taken() ==> *final(receiver) == *old(receiver)
            && *final(sender) == *old(sender),
{
    let ghost r0 = *receiver;
    let ghost s0 = *sender;
    proof {
        r0.lemma_bounds();
        assert(s0.sent().take(s0.sent().len() as int) =~= s0.sent());
    }
    loop
        invariant
            receiver.wf(),
            sender.wf(),
            total(*process),
            r0 == *old(receiver),
            s0 == *old(sender),
            relayed(*process, r0, *receiver, s0, *sender),
            !forwarded_sentinel(r0, *receiver),
            receiver.taken() == r0.taken() ==> *receiver == r0 && *sender == s0,
            run_length(r0.buffered(), s0.free()) == receiver.taken() - r0.taken() + run_length(
                receiver.buffered(),
                sender.free(),
            ),
        decreases receiver.sent().len() - receiver.taken(),
    {
        proof {
            receiver.lemma_bounds();
        }
        if receiver.empty() {
            return WorkerStatus::AwaitingMessage;
        }
        if sender.full() {
            return WorkerStatus::AwaitingCapacity;
        }
        let ghost r_mid = *receiver;
        let ghost s_mid = *sender;
        let msg = try_receive(receiver).unwrap();
        let stop = msg.is_quit();
        let out = dispatch(msg, process);
        let _sent = try_send(sender, out);
        proof {
            let first = r0.taken() as int;
            let base = s0.sent().len() as int;
            r_mid.lemma_bounds();
            s_mid.lemma_bounds();
            assert(sender.sent().take(base) =~= s_mid.sent().take(base));
            assert forall|j: int| base <= j < sender.sent().len() implies forwards(
                *process,
                r0.sent()[first + (j - base)],
                #[trigger] sender.sent()[j],
            ) by {
                if j < s_mid.sent().len() {
                    assert(sender.sent()[j] == s_mid.sent()[j]);
                }
            }
            assert(receiver.buffered() =~= r_mid.buffered().skip(1));
        }
        if stop {
            return WorkerStatus::Terminated;
        }
    }
}

} // verus!
