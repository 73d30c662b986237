use pipeline::{try_receive, try_send, Channel, Message, DEFAULT_CAPACITY};

#[test]
fn default_capacity_is_one_hundred() {
    assert_eq!(DEFAULT_CAPACITY, 100);
}

#[test]
fn a_new_mailbox_is_empty() {
    let mut ch: Channel<u32> = Channel::new(3);
    assert!(ch.empty());
    assert!(!ch.full());
    assert_eq!(ch.len(), 0);
    assert_eq!(try_receive(&mut ch), None);
}

#[test]
fn messages_come_out_in_the_order_sent() {
    let mut ch: Channel<u32> = Channel::new(4);
    assert_eq!(try_send(&mut ch, Message::Work(Ok(1))), Ok(()));
    assert_eq!(try_send(&mut ch, Message::Skip("two".to_string())), Ok(()));
    assert_eq!(try_send(&mut ch, Message::Work(Ok(3))), Ok(()));
    assert_eq!(try_send(&mut ch, Message::Quit), Ok(()));
    assert_eq!(ch.len(), 4);
    assert_eq!(try_receive(&mut ch), Some(Message::Work(Ok(1))));
    assert_eq!(try_receive(&mut ch), Some(Message::Skip("two".to_string())));
    assert_eq!(try_receive(&mut ch), Some(Message::Work(Ok(3))));
    assert_eq!(try_receive(&mut ch), Some(Message::Quit));
    assert_eq!(try_receive(&mut ch), None);
}

#[test]
fn a_full_mailbox_hands_the_message_back() {
    let mut ch: Channel<u32> = Channel::new(2);
    assert_eq!(try_send(&mut ch, Message::Work(Ok(1))), Ok(()));
    assert_eq!(try_send(&mut ch, Message::Work(Ok(2))), Ok(()));
    assert!(ch.full());
    assert_eq!(try_send(&mut ch, Message::Work(Ok(3))), Err(Message::Work(Ok(3))));
    assert_eq!(ch.len(), 2);
    assert_eq!(try_receive(&mut ch), Some(Message::Work(Ok(1))));
    assert!(!ch.full());
    assert_eq!(try_send(&mut ch, Message::Work(Ok(3))), Ok(()));
    assert_eq!(try_receive(&mut ch), Some(Message::Work(Ok(2))));
    assert_eq!(try_receive(&mut ch), Some(Message::Work(Ok(3))));
    assert!(ch.empty());
}

#[test]
fn a_mailbox_of_one_slot_alternates() {
    let mut ch: Channel<bool> = Channel::new(1);
    for round in 0..5 {
        let payload = round % 2 == 0;
        assert_eq!(try_send(&mut ch, Message::Work(Ok(payload))), Ok(()));
        assert_eq!(try_send(&mut ch, Message::Quit), Err(Message::Quit));
        assert_eq!(try_receive(&mut ch), Some(Message::Work(Ok(payload))));
        assert_eq!(try_receive(&mut ch), None);
    }
}

#[test]
fn a_mailbox_of_default_capacity_takes_one_hundred() {
    let mut ch: Channel<u32> = Channel::new(DEFAULT_CAPACITY);
    for i in 0..100u32 {
        assert_eq!(try_send(&mut ch, Message::Work(Ok(i))), Ok(()));
    }
    assert!(ch.full());
    assert_eq!(try_send(&mut ch, Message::Work(Ok(100))), Err(Message::Work(Ok(100))));
    for i in 0..100u32 {
        assert_eq!(try_receive(&mut ch), Some(Message::Work(Ok(i))));
    }
    assert!(ch.empty());
}
