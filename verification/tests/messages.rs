use tobacco_kernel::ipc;
use tobacco_kernel::ipc::{Delivery, IpcError, IpcState, ReceiveOutcome, ReceiveStep, SendStep};

fn ready(tasks: &[u64]) -> IpcState {
    let mut state = IpcState::new();
    ipc::init(&mut state);
    for task in tasks {
        assert!(ipc::register_endpoint(&mut state, *task).is_ok());
    }
    state
}

fn send(state: &mut IpcState, from: u64, to: u64, bytes: &[u8]) -> Result<u64, IpcError> {
    match ipc::send(state, from, to, bytes) {
        SendStep::Done(result) => result,
        SendStep::Wake { .. } => panic!("nobody is blocked"),
    }
}

fn receive(state: &mut IpcState, task: u64, room: &mut [u8]) -> Result<Delivery, IpcError> {
    match ipc::receive(state, task, room, false) {
        ReceiveStep::Done(Ok(ReceiveOutcome::Message(delivery))) => Ok(delivery),
        ReceiveStep::Done(Err(error)) => Err(error),
        _ => panic!("nobody blocks"),
    }
}

#[test]
fn messages_arrive_in_order() {
    let mut state = ready(&[1, 2, 3]);
    assert!(send(&mut state, 1, 2, b"first") == Ok(1));
    assert!(send(&mut state, 3, 2, b"second!") == Ok(2));
    assert!(send(&mut state, 1, 3, b"elsewhere") == Ok(3));
    let mut room = [0xeeu8; 64];
    let got = receive(&mut state, 2, &mut room);
    assert!(got == Ok(Delivery { sender: 1, length: 5, sequence: 1 }));
    assert_eq!(&room[..5], b"first");
    assert_eq!(room[5], 0xee);
    let got = receive(&mut state, 2, &mut room);
    assert!(got == Ok(Delivery { sender: 3, length: 7, sequence: 2 }));
    assert_eq!(&room[..7], b"second!");
    assert!(receive(&mut state, 2, &mut room) == Err(IpcError::QueueEmpty));
    let report = ipc::snapshot(&state);
    assert_eq!(report.messages_sent, 3);
    assert_eq!(report.messages_received, 2);
    assert_eq!(report.queued_messages, 1);
    assert_eq!(report.last_sequence, 3);
}

#[test]
fn a_run_of_messages_arrives_whole() {
    let mut state = ready(&[1, 2, 3]);
    let run: Vec<(u64, Vec<u8>)> =
        (0..8u8).map(|index| (1 + index as u64 % 3, vec![index; index as usize * 9])).collect();
    for (index, (sender, bytes)) in run.iter().enumerate() {
        assert!(send(&mut state, *sender, 2, bytes) == Ok(1 + index as u64));
    }
    for (index, (sender, bytes)) in run.iter().enumerate() {
        let mut room = [0x5au8; 70];
        let got = receive(&mut state, 2, &mut room);
        let expected = Delivery {
            sender: *sender,
            length: bytes.len() as u64,
            sequence: 1 + index as u64,
        };
        assert!(got == Ok(expected));
        assert_eq!(&room[..bytes.len()], &bytes[..]);
        assert!(room[bytes.len()..].iter().all(|byte| *byte == 0x5a));
    }
    assert!(receive(&mut state, 2, &mut [0; 64]) == Err(IpcError::QueueEmpty));
}

#[test]
fn queues_go_round_their_ring() {
    let mut state = ready(&[1, 2]);
    let mut room = [0u8; 64];
    for round in 0..30u8 {
        assert!(send(&mut state, 1, 2, &[round]).is_ok());
        assert!(send(&mut state, 1, 2, &[round, round]).is_ok());
        assert!(receive(&mut state, 2, &mut room).unwrap_or_else(|_| panic!()).length == 1);
        assert_eq!(room[0], round);
        assert!(receive(&mut state, 2, &mut room).unwrap_or_else(|_| panic!()).length == 2);
    }
    assert!(ipc::selftest(&state));
}

#[test]
fn a_full_mailbox_refuses_and_counts() {
    let mut state = ready(&[1, 2]);
    for _ in 0..8 {
        assert!(send(&mut state, 1, 2, b"x").is_ok());
    }
    assert!(send(&mut state, 1, 2, b"x") == Err(IpcError::QueueFull));
    let report = ipc::snapshot(&state);
    assert_eq!(report.queue_full_events, 1);
    assert_eq!(report.queued_messages, 8);
    assert_eq!(report.last_sequence, 8);
}

#[test]
fn mailbox_refusals_are_told_apart() {
    let mut state = IpcState::new();
    assert!(ipc::register_endpoint(&mut state, 1) == Err(IpcError::NotInitialized));
    assert!(send(&mut state, 1, 2, b"x") == Err(IpcError::NotInitialized));
    assert!(!ipc::selftest(&state));
    ipc::init(&mut state);
    assert!(ipc::register_endpoint(&mut state, 0) == Err(IpcError::InvalidTask));
    assert!(ipc::register_endpoint(&mut state, 1) == Ok(()));
    assert!(ipc::register_endpoint(&mut state, 1) == Ok(()));
    assert!(send(&mut state, 1, 2, b"x") == Err(IpcError::EndpointMissing));
    assert!(send(&mut state, 2, 1, b"x") == Err(IpcError::EndpointMissing));
    assert!(send(&mut state, 1, 1, &[0; 65]) == Err(IpcError::MessageTooLarge));
    assert!(send(&mut state, 1, 1, &[7; 64]) == Ok(1));
    let mut small = [0u8; 63];
    assert!(receive(&mut state, 1, &mut small) == Err(IpcError::BufferTooSmall));
    assert!(receive(&mut state, 2, &mut small) == Err(IpcError::EndpointMissing));
    assert!(ipc::unregister_endpoint(&mut state, 1) == Ok(1));
    assert!(ipc::unregister_endpoint(&mut state, 1) == Err(IpcError::EndpointMissing));
    for task in 1..=8 {
        assert!(ipc::register_endpoint(&mut state, task) == Ok(()));
    }
    assert!(ipc::register_endpoint(&mut state, 9) == Err(IpcError::EndpointCapacity));
    let report = ipc::snapshot(&state);
    assert_eq!(report.active_endpoints, 8);
    assert_eq!(report.endpoints_created, 9);
    assert_eq!(report.endpoints_destroyed, 1);
    assert_eq!(report.dropped_on_cleanup, 1);
}

#[test]
fn blocked_receivers_are_woken() {
    let mut state = ready(&[1, 2]);
    let mut room = [0u8; 64];
    assert!(matches!(
        ipc::receive(&mut state, 2, &mut room, true),
        ReceiveStep::Block { receiver: 2 }
    ));
    assert!(matches!(ipc::finish_receive(&mut state, 2, true), Ok(ReceiveOutcome::Blocked)));
    assert_eq!(ipc::snapshot(&state).waiting_receivers, 1);
    assert_eq!(ipc::snapshot(&state).blocked_receives, 1);
    assert!(matches!(
        ipc::send(&mut state, 1, 2, b"wake"),
        SendStep::Wake { receiver: 2, sequence: 1 }
    ));
    assert!(ipc::finish_send(&mut state, 2, 1, true) == Ok(1));
    let report = ipc::snapshot(&state);
    assert_eq!(report.waiting_receivers, 0);
    assert_eq!(report.receiver_wakeups, 1);
    assert!(receive(&mut state, 2, &mut room).is_ok());
}

#[test]
fn failed_wakes_and_blocks_are_reported() {
    let mut state = ready(&[1, 2]);
    let mut room = [0u8; 64];
    assert!(matches!(ipc::receive(&mut state, 2, &mut room, true), ReceiveStep::Block { .. }));
    assert!(ipc::finish_receive(&mut state, 2, false).err() == Some(IpcError::BlockFailed));
    assert_eq!(ipc::snapshot(&state).waiting_receivers, 0);
    assert!(matches!(ipc::receive(&mut state, 2, &mut room, true), ReceiveStep::Block { .. }));
    assert!(ipc::finish_receive(&mut state, 2, true).is_ok());
    assert!(matches!(ipc::send(&mut state, 1, 2, b"x"), SendStep::Wake { .. }));
    assert!(ipc::finish_send(&mut state, 2, 1, false) == Err(IpcError::WakeFailed));
    assert_eq!(ipc::snapshot(&state).waiting_receivers, 1);
    assert_eq!(ipc::snapshot(&state).queued_messages, 1);
}

#[test]
fn starting_the_mailboxes_twice_keeps_them() {
    let mut state = ready(&[5]);
    let report = ipc::init(&mut state);
    assert_eq!(report.active_endpoints, 1);
    assert_eq!(report.endpoint_capacity, 8);
    assert_eq!(report.queue_depth, 8);
    assert_eq!(report.max_message_bytes, 64);
}

#[test]
fn mailbox_errors_have_numbers_and_names() {
    assert_eq!(ipc::error_code(IpcError::NotInitialized), 1);
    assert_eq!(ipc::error_code(IpcError::WakeFailed), 10);
    assert_eq!(ipc::error_name(IpcError::QueueFull), "queue full");
    assert_eq!(ipc::error_name(IpcError::BlockFailed), "block failed");
}
