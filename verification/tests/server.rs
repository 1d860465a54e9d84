use mycochip::server_node::{Client, PumpAction, ReaderEvent, ServerNode};

fn staged(server: &mut ServerNode, id: u16) -> Option<Vec<u8>> {
    match server.pump(id, ReaderEvent::Quiet) {
        PumpAction::Stop => None,
        PumpAction::Idle => Some(Vec::new()),
        PumpAction::Write(bytes) => Some(bytes),
    }
}

#[test]
fn a_new_table_is_empty() {
    let mut server = ServerNode::new();
    assert!(server.connected_client_ids().is_empty());
    assert!(!server.is_connected(0));
    assert_eq!(server.read_data(0), None);
    let _ = Client::new();
}

#[test]
fn accept_hands_out_identities_in_sequence() {
    let mut server = ServerNode::new();
    assert_eq!(server.accept(), Some(0));
    assert_eq!(server.accept(), Some(1));
    assert_eq!(server.accept(), Some(2));
    assert_eq!(server.connected_client_ids(), vec![0, 1, 2]);
    assert!(server.is_connected(1));
    assert!(!server.is_connected(3));
}

#[test]
fn an_identity_is_not_handed_out_again() {
    let mut server = ServerNode::new();
    assert_eq!(server.accept(), Some(0));
    assert_eq!(server.accept(), Some(1));
    server.disconnect(0);
    assert!(!server.is_connected(0));
    assert_eq!(server.accept(), Some(2));
    server.disconnect_all();
    assert!(server.connected_client_ids().is_empty());
    assert_eq!(server.accept(), Some(3));
    assert_eq!(server.connected_client_ids(), vec![3]);
}

#[test]
fn identities_run_out_rather_than_wrap() {
    let mut server = ServerNode::new();
    for expected in 0..=65535u32 {
        assert_eq!(server.accept(), Some(expected as u16));
        server.disconnect(expected as u16);
    }
    assert_eq!(server.accept(), None);
    assert!(server.connected_client_ids().is_empty());
}

#[test]
fn read_data_takes_everything_that_arrived() {
    let mut server = ServerNode::new();
    let id = server.accept().unwrap();
    assert_eq!(server.read_data(id), None);
    server.receive_chunk(id, &vec![1, 2]);
    server.receive_chunk(id, &vec![3]);
    assert_eq!(server.read_data(id), Some(vec![1, 2, 3]));
    assert_eq!(server.read_data(id), None);
}

#[test]
fn send_data_stages_bytes_in_order() {
    let mut server = ServerNode::new();
    let a = server.accept().unwrap();
    let b = server.accept().unwrap();
    server.send_data(a, &vec![1, 2]);
    server.send_data(a, &vec![3]);
    assert_eq!(staged(&mut server, a), Some(vec![1, 2, 3]));
    assert_eq!(staged(&mut server, b), Some(vec![]));
    assert_eq!(server.read_data(a), None);
}

#[test]
fn a_connection_that_is_gone_takes_and_gives_nothing() {
    let mut server = ServerNode::new();
    let a = server.accept().unwrap();
    let b = server.accept().unwrap();
    server.receive_chunk(a, &vec![9]);
    server.disconnect(a);
    server.send_data(a, &vec![1]);
    server.receive_chunk(a, &vec![2]);
    server.mark_written(a, 1);
    assert_eq!(server.read_data(a), None);
    assert!(!server.is_connected(a));
    assert_eq!(staged(&mut server, a), None);
    assert_eq!(server.connected_client_ids(), vec![b]);
    assert_eq!(staged(&mut server, b), Some(vec![]));
    server.disconnect(a);
    assert_eq!(server.connected_client_ids(), vec![b]);
}

#[test]
fn send_to_all_reaches_every_live_connection() {
    let mut server = ServerNode::new();
    let a = server.accept().unwrap();
    let b = server.accept().unwrap();
    let c = server.accept().unwrap();
    server.disconnect(b);
    server.send_data(a, &vec![7]);
    server.send_to_all(&vec![b'h', b'i']);
    assert_eq!(staged(&mut server, a), Some(vec![7, b'h', b'i']));
    assert_eq!(staged(&mut server, b), None);
    assert_eq!(staged(&mut server, c), Some(vec![b'h', b'i']));
}

#[test]
fn the_pump_notes_chunks_and_offers_what_is_staged() {
    let mut server = ServerNode::new();
    let id = server.accept().unwrap();
    assert!(matches!(server.pump(id, ReaderEvent::Quiet), PumpAction::Idle));
    assert!(matches!(server.pump(id, ReaderEvent::Chunk(vec![1, 2])), PumpAction::Idle));
    assert_eq!(server.read_data(id), Some(vec![1, 2]));
    server.send_data(id, &vec![5, 6, 7]);
    match server.pump(id, ReaderEvent::Chunk(vec![3])) {
        PumpAction::Write(bytes) => assert_eq!(bytes, vec![5, 6, 7]),
        _ => panic!("expected a write"),
    }
    assert_eq!(server.read_data(id), Some(vec![3]));
}

#[test]
fn the_pump_ends_when_the_peer_closes() {
    let mut server = ServerNode::new();
    let id = server.accept().unwrap();
    server.send_data(id, &vec![1]);
    assert!(matches!(server.pump(id, ReaderEvent::Closed), PumpAction::Stop));
    assert!(!server.is_connected(id));
    assert!(matches!(server.pump(id, ReaderEvent::Quiet), PumpAction::Stop));
    assert!(matches!(server.pump(id, ReaderEvent::Chunk(vec![1])), PumpAction::Stop));
    assert!(!server.is_connected(id));
}

#[test]
fn written_removes_exactly_what_the_socket_took() {
    let mut server = ServerNode::new();
    let id = server.accept().unwrap();
    server.send_data(id, &vec![1, 2, 3, 4, 5]);
    server.written(id, Some(2));
    assert_eq!(staged(&mut server, id), Some(vec![3, 4, 5]));
    server.written(id, Some(0));
    assert_eq!(staged(&mut server, id), Some(vec![3, 4, 5]));
    server.mark_written(id, 3);
    assert_eq!(staged(&mut server, id), Some(vec![]));
    server.send_data(id, &vec![8]);
    server.mark_written(id, 10);
    assert_eq!(staged(&mut server, id), Some(vec![]));
}

#[test]
fn a_failed_write_ends_the_connection() {
    let mut server = ServerNode::new();
    let a = server.accept().unwrap();
    let b = server.accept().unwrap();
    server.send_data(a, &vec![1]);
    server.written(a, None);
    assert!(!server.is_connected(a));
    assert!(server.is_connected(b));
}
