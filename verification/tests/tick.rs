use std::cell::RefCell;
use std::rc::Rc;

use mycochip::avr_net::FormatError;
use mycochip::config::{connect_peers, Device, MycochipConfig};
use mycochip::gateway::{TcpReceiver, TCP_GATEWAY_ADDRESS};
use mycochip::network::{Network, NetworkError, NetworkReceive};
use mycochip::server_node::{PumpAction, ReaderEvent, ServerNode};
use mycochip::tick::{
    keep_stepping, route_client_input, route_device_output, TickError, DEVICE_EVENT_PORT,
    REQUEST_PORT, STEP_BUDGET, TCP_GATEWAY_NAME,
};

type Shared = Rc<RefCell<ServerNode>>;

enum Endpoint {
    Device(Vec<u8>),
    Gateway(TcpReceiver, Shared),
}

impl NetworkReceive for Endpoint {
    fn receive(&mut self, b: u8) {
        match self {
            Endpoint::Device(seen) => seen.push(b),
            Endpoint::Gateway(receiver, server) => {
                receiver.receive(b);
                receiver.flush(&mut server.borrow_mut());
            }
        }
    }
}

fn seen(network: &Network<Endpoint>, name: &str) -> Vec<u8> {
    match network.node(name).unwrap().receiver() {
        Endpoint::Device(seen) => seen.clone(),
        Endpoint::Gateway(..) => panic!("not a device"),
    }
}

fn staged(server: &Shared, id: u16) -> Option<Vec<u8>> {
    match server.borrow_mut().pump(id, ReaderEvent::Quiet) {
        PumpAction::Stop => None,
        PumpAction::Idle => Some(Vec::new()),
        PumpAction::Write(bytes) => Some(bytes),
    }
}

fn bridged() -> (Network<Endpoint>, Shared) {
    let server: Shared = Rc::new(RefCell::new(ServerNode::new()));
    let mut network = Network::new();
    network
        .create_node(TCP_GATEWAY_NAME, Endpoint::Gateway(TcpReceiver::new(), server.clone()))
        .unwrap();
    network.create_node("D", Endpoint::Device(Vec::new())).unwrap();
    network.create_node("E", Endpoint::Device(Vec::new())).unwrap();
    network.connect("D", TCP_GATEWAY_NAME).unwrap();
    (network, server)
}

fn device(peers: &[&str]) -> Device {
    Device {
        mcu: "atmega328p".to_string(),
        firmware: "firmware.elf".to_string(),
        eeprom: None,
        peers: peers.iter().map(|p| p.to_string()).collect(),
    }
}

#[test]
fn the_fixed_names_and_numbers() {
    assert_eq!(TCP_GATEWAY_NAME, "tcp_gateway");
    assert_eq!(TCP_GATEWAY_ADDRESS, 1);
    assert_eq!(REQUEST_PORT, 6711);
    assert_eq!(DEVICE_EVENT_PORT, 6712);
    assert_eq!(STEP_BUDGET, 999);
}

#[test]
fn a_device_runs_until_it_sleeps_or_its_budget_ends() {
    assert!(keep_stepping(0, false));
    assert!(keep_stepping(998, false));
    assert!(!keep_stepping(999, false));
    assert!(!keep_stepping(1000, false));
    assert!(!keep_stepping(0, true));
    assert!(!keep_stepping(999, true));
}

#[test]
fn a_frame_from_a_device_reaches_every_connection() {
    let (mut network, server) = bridged();
    let first = server.borrow_mut().accept().unwrap();
    let second = server.borrow_mut().accept().unwrap();

    let frame = vec![0, 1, 0, 2, b'h', b'i'];
    let publication = route_device_output(&mut network, "D", &frame).unwrap().unwrap();
    assert_eq!(publication.topic, "D/bus");
    assert_eq!(publication.payload, frame);
    assert_eq!(staged(&server, first), Some(vec![]));

    network.deliver_messages();
    assert_eq!(staged(&server, first), Some(b"hi".to_vec()));
    assert_eq!(staged(&server, second), Some(b"hi".to_vec()));
    assert!(seen(&network, "E").is_empty());
    assert!(seen(&network, "D").is_empty());
}

#[test]
fn a_frame_for_another_address_reaches_no_connection() {
    let (mut network, server) = bridged();
    let id = server.borrow_mut().accept().unwrap();
    route_device_output(&mut network, "D", &vec![0, 2, 0, 2, b'h', b'i']).unwrap();
    route_device_output(&mut network, "D", &vec![0, 1, 0, 1, b'!']).unwrap();
    network.deliver_messages();
    assert_eq!(staged(&server, id), Some(b"!".to_vec()));
}

#[test]
fn a_device_that_sent_nothing_changes_nothing() {
    let (mut network, _server) = bridged();
    assert!(route_device_output(&mut network, "D", &vec![]).unwrap().is_none());
    assert!(route_device_output(&mut network, "nobody", &vec![]).unwrap().is_none());
    network.deliver_messages();
    assert!(seen(&network, "E").is_empty());
}

#[test]
fn output_of_an_unknown_device_is_refused() {
    let (mut network, _server) = bridged();
    assert_eq!(
        route_device_output(&mut network, "nobody", &vec![1]).err(),
        Some(NetworkError::UnknownNode)
    );
}

#[test]
fn bytes_from_connections_go_onto_the_bus_as_frames() {
    let (mut network, server) = bridged();
    let a = server.borrow_mut().accept().unwrap();
    let b = server.borrow_mut().accept().unwrap();
    let c = server.borrow_mut().accept().unwrap();
    server.borrow_mut().receive_chunk(c, &vec![b'c']);
    server.borrow_mut().receive_chunk(a, &vec![b'a', b'a']);

    assert_eq!(route_client_input(&mut server.borrow_mut(), &mut network), Ok(()));
    assert_eq!(server.borrow_mut().read_data(a), None);
    assert_eq!(server.borrow_mut().read_data(b), None);
    assert_eq!(server.borrow_mut().read_data(c), None);
    assert!(seen(&network, "D").is_empty());

    network.deliver_messages();
    assert_eq!(seen(&network, "D"), vec![0, 1, 0, 2, b'a', b'a', 0, 1, 0, 1, b'c']);
    assert!(seen(&network, "E").is_empty());

    assert_eq!(route_client_input(&mut server.borrow_mut(), &mut network), Ok(()));
    network.deliver_messages();
    assert_eq!(seen(&network, "D").len(), 11);
}

#[test]
fn input_is_left_alone_without_a_gateway_node() {
    let mut server = ServerNode::new();
    let id = server.accept().unwrap();
    server.receive_chunk(id, &vec![1]);
    let mut network: Network<Endpoint> = Network::new();
    network.create_node("D", Endpoint::Device(Vec::new())).unwrap();
    assert_eq!(
        route_client_input(&mut server, &mut network),
        Err(TickError::Network(NetworkError::UnknownNode))
    );
    assert_eq!(server.read_data(id), Some(vec![1]));
}

#[test]
fn input_too_large_for_one_frame_is_refused() {
    let (mut network, server) = bridged();
    let a = server.borrow_mut().accept().unwrap();
    let b = server.borrow_mut().accept().unwrap();
    let c = server.borrow_mut().accept().unwrap();
    server.borrow_mut().receive_chunk(a, &vec![1]);
    server.borrow_mut().receive_chunk(b, &vec![0; 65536]);
    server.borrow_mut().receive_chunk(c, &vec![3]);
    assert_eq!(
        route_client_input(&mut server.borrow_mut(), &mut network),
        Err(TickError::Format(FormatError::PayloadTooLarge))
    );
    assert_eq!(server.borrow_mut().read_data(a), None);
    assert_eq!(server.borrow_mut().read_data(b), None);
    assert_eq!(server.borrow_mut().read_data(c), Some(vec![3]));
    network.deliver_messages();
    assert_eq!(seen(&network, "D"), vec![0, 1, 0, 1, 1]);
}

#[test]
fn the_largest_input_that_fits_one_frame_is_taken() {
    let (mut network, server) = bridged();
    let a = server.borrow_mut().accept().unwrap();
    server.borrow_mut().receive_chunk(a, &vec![5; 65535]);
    assert_eq!(route_client_input(&mut server.borrow_mut(), &mut network), Ok(()));
    network.deliver_messages();
    let got = seen(&network, "D");
    assert_eq!(got.len(), 65539);
    assert_eq!(&got[..4], &[0, 1, 0xff, 0xff]);
}

#[test]
fn the_gateway_receiver_collects_payloads_until_flushed() {
    let mut receiver = TcpReceiver::new();
    let mut server = ServerNode::new();
    let id = server.accept().unwrap();
    for b in [0, 1, 0, 2, b'h', b'i', 0, 9, 0, 1, b'x', 0, 1, 0, 1, b'!'] {
        receiver.receive(b);
    }
    assert!(matches!(server.pump(id, ReaderEvent::Quiet), PumpAction::Idle));
    receiver.flush(&mut server);
    match server.pump(id, ReaderEvent::Quiet) {
        PumpAction::Write(bytes) => assert_eq!(bytes, b"hi!".to_vec()),
        _ => panic!("expected a write"),
    }
    receiver.flush(&mut server);
    match server.pump(id, ReaderEvent::Quiet) {
        PumpAction::Write(bytes) => assert_eq!(bytes, b"hi!".to_vec()),
        _ => panic!("expected a write"),
    }
}

#[test]
fn peers_of_the_configuration_are_joined() {
    let mut network: Network<Endpoint> = Network::new();
    for name in ["a", "b", "c"] {
        network.create_node(name, Endpoint::Device(Vec::new())).unwrap();
    }
    let config = MycochipConfig {
        devices: vec![
            ("a".to_string(), device(&["b", "c"])),
            ("b".to_string(), device(&["a"])),
            ("c".to_string(), device(&[])),
        ],
    };
    assert_eq!(connect_peers(&mut network, &config), Ok(()));
    let mut of_a = network.node("a").unwrap().peers().clone();
    of_a.sort();
    assert_eq!(of_a, vec!["b".to_string(), "c".to_string()]);
    assert_eq!(network.node("b").unwrap().peers(), &vec!["a".to_string()]);
    assert_eq!(network.node("c").unwrap().peers(), &vec!["a".to_string()]);
}

#[test]
fn joining_stops_at_the_first_edge_that_is_refused() {
    let mut network: Network<Endpoint> = Network::new();
    for name in ["a", "b", "c"] {
        network.create_node(name, Endpoint::Device(Vec::new())).unwrap();
    }
    let config = MycochipConfig {
        devices: vec![
            ("a".to_string(), device(&["b", "missing", "c"])),
            ("b".to_string(), device(&["c"])),
        ],
    };
    assert_eq!(connect_peers(&mut network, &config), Err(NetworkError::UnknownNode));
    assert_eq!(network.node("a").unwrap().peers(), &vec!["b".to_string()]);
    assert!(network.node("c").unwrap().peers().is_empty());

    let own = MycochipConfig { devices: vec![("c".to_string(), device(&["c"]))] };
    assert_eq!(connect_peers(&mut network, &own), Err(NetworkError::SelfConnection));
}
