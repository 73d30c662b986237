//! What holds of every pipeline, whatever its stages do.

use vstd::prelude::*;
use crate::chain::{sentinel_last, unchanged_stages, Chain};
use crate::message::{Message, TError, TResult};
use crate::orchestrator::Pipeline;
use crate::worker::{forwards, lemma_forwards_keeps_sentinel, outcome_of};

verus! {

/// Nothing is lost and nothing is made up: every submitted message is
/// either still in flight or has come out. While the pipeline runs, no
/// sentinel has come out. Once it has terminated, as many messages have come
/// out as went in, and exactly the last of them is the sentinel.
pub proof fn lemma_count_preserved<C: Chain>(p: Pipeline<C>)
    requires
        p.wf(),
    ensures
        p.received().len() + p.in_flight() == p.submitted().len(),
        p.state() is Running ==> forall|i: int|
            0 <= i < p.received().len() ==> !(#[trigger] p.received()[i]).is_terminal(),
        p.state() is Terminated ==> {
            &&& p.received().len() == p.submitted().len()
            &&& p.received().last().is_terminal()
            &&& sentinel_last(p.received())
        },
{
    let chain = p.chain();
    chain.lemma_invariant();
    chain.exit().lemma_bounds();
    assert forall|i: int| 0 <= i < p.received().len() implies (p.received()[i].is_terminal()
        <==> p.submitted()[i].is_terminal()) by {
        assert(chain.transfer(p.submitted()[i], chain.exit().sent()[i]));
        chain.lemma_transfer(p.submitted()[i], p.received()[i]);
    }
}

/// Results come out in the order in which their items went in: the message
/// received at a position answers the message submitted at that position.
pub proof fn lemma_order_preserved<C: Chain>(p: Pipeline<C>, i: int)
    requires
        p.wf(),
        0 <= i < p.received().len(),
    ensures
        i < p.submitted().len(),
        p.chain().transfer(p.submitted()[i], p.received()[i]),
{
    let chain = p.chain();
    chain.lemma_invariant();
    chain.exit().lemma_bounds();
    assert(chain.transfer(p.submitted()[i], chain.exit().sent()[i]));
}

/// A worker forwards a failed item as `Skip` with the error it came with,
/// whatever its transform is: the transform has no say in it.
pub proof fn lemma_stage_bypasses_failure<I, O, F: Fn(I) -> TResult<O>>(
    process: F,
    msg: Message<I>,
    out: Message<O>,
)
    requires
        msg.is_failure(),
    ensures
        forwards(process, msg, out) <==> out == Message::<O>::Skip(msg.failure()),
{
}

/// A `Skip` that enters a chain leaves it as the same `Skip`, however many
/// stages the chain has and whatever their transforms are.
pub proof fn lemma_skip_is_inert<C: Chain>(chain: C, error: TError, out: Message<C::Out>)
    ensures
        chain.transfer(Message::Skip(error), out) <==> out == Message::<C::Out>::Skip(error),
{
    chain.lemma_passes(error);
    if chain.transfer(Message::Skip(error), out) {
        chain.lemma_transfer(Message::Skip(error), out);
    }
}

/// The result received for a failed item is `Skip` with the error that was submitted.
pub proof fn lemma_failure_delivered_intact<C: Chain>(p: Pipeline<C>, i: int)
    requires
        p.wf(),
        0 <= i < p.received().len(),
        p.submitted()[i].is_failure(),
    ensures
        p.received()[i] == Message::<C::Out>::Skip(p.submitted()[i].failure()),
{
    lemma_order_preserved(p, i);
    p.chain().lemma_transfer(p.submitted()[i], p.received()[i]);
}

/// Where the transform fails on an item, the worker forwards `Skip` with
/// that error, and never `Work` holding it.
pub proof fn lemma_error_becomes_skip<I, O, F: Fn(I) -> TResult<O>>(
    process: F,
    item: I,
    error: TError,
    out: Message<O>,
)
    requires
        call_ensures(process, (item,), Err::<O, TError>(error)),
    ensures
        outcome_of(Err::<O, TError>(error)) == Message::<O>::Skip(error),
        forwards(process, Message::Work(Ok(item)), Message::<O>::Skip(error)),
        forwards(process, Message::Work(Ok(item)), out) ==> !(out matches Message::Work(Err(_))),
        (forall|r: TResult<O>| call_ensures(process, (item,), r) ==> r == Err::<O, TError>(error))
            ==> (forwards(process, Message::Work(Ok(item)), out) <==> out == Message::<O>::Skip(
            error,
        )),
{
    let failed = Err::<O, TError>(error);
    assert(call_ensures(process, (item,), failed) && Message::<O>::Skip(error) == outcome_of(
        failed,
    ));
    if forwards(process, Message::Work(Ok(item)), out) {
        lemma_forwards_keeps_sentinel(process, Message::Work(Ok(item)), out);
    }
}

/// No message that leaves a chain of at least one stage is `Work` holding an error.
pub proof fn lemma_no_raw_error_leaves<C: Chain>(
    chain: C,
    msg: Message<C::In>,
    out: Message<C::Out>,
)
    requires
        chain.stages() > 0,
        chain.transfer(msg, out),
    ensures
        !(out matches Message::Work(Err(_))),
{
    chain.lemma_transfer(msg, out);
}

/// A running pipeline refuses a submission exactly when all its mailboxes
/// are full, and then there is a result to receive.
pub proof fn lemma_backpressure<C: Chain>(p: Pipeline<C>)
    requires
        p.wf(),
        p.state() is Running,
    ensures
        p.in_flight() <= p.capacity(),
        p.chain().saturated() <==> p.in_flight() == p.capacity(),
        !p.accepts() ==> p.in_flight() > 0,
{
    let chain = p.chain();
    chain.lemma_invariant();
    assert(sentinel_last(p.submitted()));
    chain.lemma_settled();
}

/// Receiving one result from a pipeline that refused submissions makes it
/// accept the next one.
pub proof fn lemma_receive_unblocks<C: Chain>(before: Pipeline<C>, after: Pipeline<C>)
    requires
        before.wf(),
        before.state() is Running,
        !before.accepts(),
        after.state() == before.state(),
        unchanged_stages(&after.chain(), &before.chain()),
        after.in_flight() == before.in_flight() - 1,
    ensures
        after.accepts(),
{
    lemma_backpressure(before);
}

/// After shutdown every worker has stopped.
pub proof fn lemma_terminated_stops_workers<C: Chain>(p: Pipeline<C>)
    requires
        p.wf(),
        p.state() is Terminated,
    ensures
        p.chain().terminated(),
{
    lemma_count_preserved(p);
    let chain = p.chain();
    chain.lemma_invariant();
    chain.exit().lemma_bounds();
    chain.lemma_sentinel_stops_workers(p.received().len() - 1);
}

} // verus!
