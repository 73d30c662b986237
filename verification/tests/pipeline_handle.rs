use pipeline::{
    try_receive, Chain, Channel, Inlet, Message, NotRunning, Pipeline, Stage, SubmitError, TResult,
    WorkerStatus,
};
use std::cell::Cell;

fn halve(n: u32) -> TResult<u32> {
    if n % 2 == 0 {
        Ok(n / 2)
    } else {
        Err(format!("{} is odd", n))
    }
}

fn label(n: u32) -> TResult<String> {
    if n < 10 {
        Ok(format!("#{}", n))
    } else {
        Err(format!("{} is too large", n))
    }
}

#[test]
fn a_chain_without_a_stage_is_refused() {
    let inlet: Inlet<u32> = Inlet::new(4);
    assert!(Pipeline::build(inlet).is_none());
}

#[test]
fn a_chain_of_one_stage_is_accepted() {
    let chain = Stage::new(Inlet::new(4), halve, 4);
    let pipeline = Pipeline::build(chain).unwrap();
    assert!(pipeline.is_running());
}

#[test]
fn a_chain_knows_whether_it_has_stages() {
    let inlet: Inlet<u32> = Inlet::new(1);
    assert!(!inlet.has_stages());
    let chain = Stage::new(inlet, halve, 1);
    assert!(chain.has_stages());
}

#[test]
fn results_keep_the_order_of_submission() {
    let chain = Stage::new(Stage::new(Inlet::new(8), halve, 8), label, 8);
    let mut pipeline = Pipeline::build(chain).unwrap();
    for n in [4u32, 7, 40, 0, 18] {
        assert_eq!(pipeline.submit(n), Ok(()));
    }
    assert_eq!(pipeline.submit_error("unreadable".to_string()), Ok(()));
    assert_eq!(pipeline.submit(2), Ok(()));
    let mut out = Vec::new();
    while let Some(m) = pipeline.try_receive_result() {
        out.push(m);
    }
    assert_eq!(
        out,
        vec![
            Message::Work(Ok("#2".to_string())),
            Message::Skip("7 is odd".to_string()),
            Message::Skip("20 is too large".to_string()),
            Message::Work(Ok("#0".to_string())),
            Message::Work(Ok("#9".to_string())),
            Message::Skip("unreadable".to_string()),
            Message::Work(Ok("#1".to_string())),
        ]
    );
}

#[test]
fn as_many_results_as_submissions() {
    let chain = Stage::new(Stage::new(Inlet::new(2), halve, 3), label, 1);
    let mut pipeline = Pipeline::build(chain).unwrap();
    let mut received = 0usize;
    for n in 0..50u32 {
        loop {
            match pipeline.submit(n) {
                Ok(()) => break,
                Err(SubmitError::Full(back)) => {
                    assert_eq!(back, n);
                    assert!(pipeline.try_receive_result().is_some());
                    received += 1;
                },
                Err(SubmitError::NotRunning(_)) => panic!("the pipeline runs"),
            }
        }
    }
    while let Some(m) = pipeline.try_receive_result() {
        assert!(!m.is_quit());
        received += 1;
    }
    assert_eq!(received, 50);
    assert_eq!(pipeline.shutdown(), Ok(()));
    assert_eq!(pipeline.try_receive_result(), None);
}

#[test]
fn a_skipped_item_reaches_no_later_transform() {
    let first_calls = Cell::new(0u32);
    let second_calls = Cell::new(0u32);
    let first = |n: u32| -> TResult<u32> {
        first_calls.set(first_calls.get() + 1);
        halve(n)
    };
    let second = |n: u32| -> TResult<String> {
        second_calls.set(second_calls.get() + 1);
        label(n)
    };
    let chain = Stage::new(Stage::new(Inlet::new(8), first, 8), second, 8);
    let mut pipeline = Pipeline::build(chain).unwrap();
    assert_eq!(pipeline.submit_error("lost on the way in".to_string()), Ok(()));
    assert_eq!(pipeline.submit(3), Ok(()));
    assert_eq!(pipeline.submit(6), Ok(()));
    assert_eq!(
        pipeline.try_receive_result(),
        Some(Message::Skip("lost on the way in".to_string()))
    );
    assert_eq!(pipeline.try_receive_result(), Some(Message::Skip("3 is odd".to_string())));
    assert_eq!(pipeline.try_receive_result(), Some(Message::Work(Ok("#3".to_string()))));
    assert_eq!(first_calls.get(), 2);
    assert_eq!(second_calls.get(), 1);
}

#[test]
fn submission_is_refused_when_every_mailbox_is_full() {
    let chain = Stage::new(Stage::new(Inlet::new(1), halve, 1), label, 1);
    let mut pipeline = Pipeline::build(chain).unwrap();
    assert_eq!(pipeline.submit(2), Ok(()));
    assert_eq!(pipeline.submit(4), Ok(()));
    assert_eq!(pipeline.submit(6), Ok(()));
    assert_eq!(pipeline.submit(8), Err(SubmitError::Full(8)));
    assert_eq!(
        pipeline.submit_error("late".to_string()),
        Err(SubmitError::Full("late".to_string()))
    );
    assert_eq!(pipeline.try_receive_result(), Some(Message::Work(Ok("#1".to_string()))));
    assert_eq!(pipeline.submit(8), Ok(()));
    assert_eq!(pipeline.submit(10), Err(SubmitError::Full(10)));
    assert_eq!(pipeline.try_receive_result(), Some(Message::Work(Ok("#2".to_string()))));
    assert_eq!(pipeline.try_receive_result(), Some(Message::Work(Ok("#3".to_string()))));
    assert_eq!(pipeline.try_receive_result(), Some(Message::Work(Ok("#4".to_string()))));
    assert_eq!(pipeline.try_receive_result(), None);
}

#[test]
fn total_capacity_is_the_sum_of_the_mailboxes() {
    let chain = Stage::new(Stage::new(Inlet::new(2), halve, 3), label, 4);
    let mut pipeline = Pipeline::build(chain).unwrap();
    for n in 0..9u32 {
        assert_eq!(pipeline.submit(n), Ok(()));
    }
    assert_eq!(pipeline.submit(9), Err(SubmitError::Full(9)));
}

#[test]
fn nothing_to_receive_from_an_idle_pipeline() {
    let chain = Stage::new(Inlet::new(2), halve, 2);
    let mut pipeline = Pipeline::build(chain).unwrap();
    assert_eq!(pipeline.try_receive_result(), None);
}

#[test]
fn shutdown_discards_what_is_in_flight() {
    let calls = Cell::new(0u32);
    let counting = |n: u32| -> TResult<u32> {
        calls.set(calls.get() + 1);
        halve(n)
    };
    let chain = Stage::new(Inlet::new(4), counting, 4);
    let mut pipeline = Pipeline::build(chain).unwrap();
    for n in 0..5u32 {
        assert_eq!(pipeline.submit(n), Ok(()));
    }
    assert_eq!(pipeline.shutdown(), Ok(()));
    assert!(!pipeline.is_running());
    assert_eq!(pipeline.try_receive_result(), None);
    assert_eq!(calls.get(), 5);
}

#[test]
fn shutdown_of_a_full_pipeline_makes_room_for_the_sentinel() {
    let chain = Stage::new(Stage::new(Inlet::new(1), halve, 1), label, 1);
    let mut pipeline = Pipeline::build(chain).unwrap();
    for n in [2u32, 4, 6] {
        assert_eq!(pipeline.submit(n), Ok(()));
    }
    assert_eq!(pipeline.submit(8), Err(SubmitError::Full(8)));
    assert_eq!(pipeline.shutdown(), Ok(()));
    assert_eq!(pipeline.try_receive_result(), None);
}

#[test]
fn shutdown_of_an_idle_pipeline() {
    let chain = Stage::new(Inlet::new(1), halve, 1);
    let mut pipeline = Pipeline::build(chain).unwrap();
    assert_eq!(pipeline.shutdown(), Ok(()));
    assert!(!pipeline.is_running());
}

#[test]
fn a_second_shutdown_is_refused() {
    let chain = Stage::new(Inlet::new(1), halve, 1);
    let mut pipeline = Pipeline::build(chain).unwrap();
    assert_eq!(pipeline.shutdown(), Ok(()));
    assert_eq!(pipeline.shutdown(), Err(NotRunning));
}

#[test]
fn nothing_is_accepted_after_shutdown() {
    let chain = Stage::new(Inlet::new(4), halve, 4);
    let mut pipeline = Pipeline::build(chain).unwrap();
    assert_eq!(pipeline.shutdown(), Ok(()));
    assert_eq!(pipeline.submit(2), Err(SubmitError::NotRunning(2)));
    assert_eq!(
        pipeline.submit_error("late".to_string()),
        Err(SubmitError::NotRunning("late".to_string()))
    );
    assert_eq!(pipeline.try_receive_result(), None);
}

#[test]
fn a_chain_moves_messages_only_when_it_settles() {
    let mut chain = Stage::new(Inlet::new(2), halve, 2);
    assert!(!chain.is_saturated());
    assert_eq!(chain.offer(Message::Work(Ok(2))), Ok(()));
    assert_eq!(chain.offer(Message::Work(Ok(5))), Ok(()));
    assert!(chain.is_saturated());
    assert_eq!(chain.offer(Message::Quit), Err(Message::Quit));
    assert_eq!(chain.take(), None);
    chain.settle();
    assert!(!chain.is_saturated());
    assert_eq!(chain.take(), Some(Message::Work(Ok(1))));
    assert_eq!(chain.take(), Some(Message::Skip("5 is odd".to_string())));
    assert_eq!(chain.take(), None);
}

#[test]
fn a_settled_chain_is_packed_towards_the_exit() {
    let mut chain = Stage::new(Stage::new(Inlet::new(2), halve, 2), label, 2);
    for n in [0u32, 2, 4, 6] {
        assert_eq!(chain.offer(Message::Work(Ok(n))), Ok(()));
        chain.settle();
    }
    assert!(!chain.is_saturated());
    assert_eq!(chain.offer(Message::Work(Ok(8))), Ok(()));
    assert_eq!(chain.offer(Message::Work(Ok(10))), Ok(()));
    chain.settle();
    assert!(chain.is_saturated());
    assert_eq!(chain.take(), Some(Message::Work(Ok("#0".to_string()))));
    assert_eq!(chain.take(), Some(Message::Work(Ok("#1".to_string()))));
    assert_eq!(chain.take(), None);
    chain.settle();
    assert!(!chain.is_saturated());
    assert_eq!(chain.take(), Some(Message::Work(Ok("#2".to_string()))));
    assert_eq!(chain.take(), Some(Message::Work(Ok("#3".to_string()))));
    chain.settle();
    assert_eq!(chain.take(), Some(Message::Work(Ok("#4".to_string()))));
    assert_eq!(chain.take(), Some(Message::Work(Ok("#5".to_string()))));
    assert_eq!(chain.take(), None);
}

#[test]
fn relay_runs_the_worker_behind_a_chain() {
    let mut chain = Stage::new(Inlet::new(4), halve, 4);
    let mut outbox: Channel<String> = Channel::new(1);
    assert_eq!(chain.offer(Message::Work(Ok(4))), Ok(()));
    assert_eq!(chain.offer(Message::Quit), Ok(()));
    chain.settle();
    assert_eq!(chain.relay(&label, &mut outbox), WorkerStatus::AwaitingCapacity);
    assert_eq!(try_receive(&mut outbox), Some(Message::Work(Ok("#2".to_string()))));
    assert_eq!(chain.relay(&label, &mut outbox), WorkerStatus::Terminated);
    assert_eq!(try_receive(&mut outbox), Some(Message::Quit));
    assert_eq!(chain.take(), None);
}
