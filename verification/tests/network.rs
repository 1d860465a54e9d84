use mycochip::network::{Network, NetworkError, NetworkNode, NetworkReceive};

struct Recorder {
    seen: Vec<u8>,
}

impl Recorder {
    fn new() -> Self {
        Recorder { seen: Vec::new() }
    }
}

impl NetworkReceive for Recorder {
    fn receive(&mut self, b: u8) {
        self.seen.push(b);
    }
}

fn seen(network: &Network<Recorder>, name: &str) -> Vec<u8> {
    network.node(name).unwrap().receiver().seen.clone()
}

fn peers(network: &Network<Recorder>, name: &str) -> Vec<String> {
    let mut list = network.node(name).unwrap().peers().clone();
    list.sort();
    list
}

fn three_nodes() -> Network<Recorder> {
    let mut network = Network::new();
    network.create_node("a", Recorder::new()).unwrap();
    network.create_node("b", Recorder::new()).unwrap();
    network.create_node("c", Recorder::new()).unwrap();
    network
}

#[test]
fn create_node_registers_names_in_order() {
    let network = three_nodes();
    assert_eq!(network.node_names(), vec!["a".to_string(), "b".to_string(), "c".to_string()]);
}

#[test]
fn create_node_refuses_a_taken_name() {
    let mut network = three_nodes();
    assert_eq!(network.create_node("b", Recorder::new()), Err(NetworkError::DuplicateNode));
    assert_eq!(network.node_names().len(), 3);
}

#[test]
fn connect_is_symmetric() {
    let mut network = three_nodes();
    assert_eq!(network.connect("a", "b"), Ok(()));
    assert_eq!(peers(&network, "a"), vec!["b".to_string()]);
    assert_eq!(peers(&network, "b"), vec!["a".to_string()]);
    assert!(peers(&network, "c").is_empty());
}

#[test]
fn connect_twice_lists_the_peer_once() {
    let mut network = three_nodes();
    network.connect("a", "b").unwrap();
    network.connect("b", "a").unwrap();
    assert_eq!(peers(&network, "a"), vec!["b".to_string()]);
    assert_eq!(peers(&network, "b"), vec!["a".to_string()]);
}

#[test]
fn disconnect_is_symmetric() {
    let mut network = three_nodes();
    network.connect("a", "b").unwrap();
    network.connect("a", "c").unwrap();
    assert_eq!(network.disconnect("b", "a"), Ok(()));
    assert_eq!(peers(&network, "a"), vec!["c".to_string()]);
    assert!(peers(&network, "b").is_empty());
    assert_eq!(peers(&network, "c"), vec!["a".to_string()]);
}

#[test]
fn connect_refuses_a_self_connection() {
    let mut network = three_nodes();
    assert_eq!(network.connect("a", "a"), Err(NetworkError::SelfConnection));
    assert!(peers(&network, "a").is_empty());
}

#[test]
fn connect_refuses_unknown_nodes_and_changes_nothing() {
    let mut network = three_nodes();
    assert_eq!(network.connect("x", "a"), Err(NetworkError::UnknownNode));
    assert_eq!(network.connect("x", "x"), Err(NetworkError::UnknownNode));
    assert_eq!(network.connect("a", "x"), Err(NetworkError::UnknownNode));
    assert!(peers(&network, "a").is_empty());
    assert_eq!(network.disconnect("a", "x"), Err(NetworkError::UnknownNode));
    assert_eq!(network.disconnect("x", "a"), Err(NetworkError::UnknownNode));
}

#[test]
fn broadcast_from_refuses_an_unknown_node() {
    let mut network = three_nodes();
    assert_eq!(network.broadcast_from("x", &vec![1]), Err(NetworkError::UnknownNode));
}

#[test]
fn delivery_reaches_peers_only() {
    let mut network = three_nodes();
    network.create_node("d", Recorder::new()).unwrap();
    network.connect("a", "b").unwrap();
    network.connect("a", "c").unwrap();
    network.broadcast_from("a", &vec![1, 2, 3]).unwrap();
    assert!(seen(&network, "b").is_empty());
    network.deliver_messages();
    assert_eq!(seen(&network, "b"), vec![1, 2, 3]);
    assert_eq!(seen(&network, "c"), vec![1, 2, 3]);
    assert!(seen(&network, "d").is_empty());
    assert!(seen(&network, "a").is_empty());
}

#[test]
fn delivery_empties_the_queues() {
    let mut network = three_nodes();
    network.connect("a", "b").unwrap();
    network.broadcast_from("a", &vec![1, 2]).unwrap();
    network.broadcast_from("a", &vec![3]).unwrap();
    network.deliver_messages();
    network.deliver_messages();
    assert_eq!(seen(&network, "b"), vec![1, 2, 3]);
}

#[test]
fn delivery_goes_sender_by_sender_in_order_of_registration() {
    let mut network = three_nodes();
    network.connect("c", "b").unwrap();
    network.connect("a", "b").unwrap();
    network.broadcast_from("c", &vec![30, 31]).unwrap();
    network.broadcast_from("a", &vec![10, 11]).unwrap();
    network.deliver_messages();
    assert_eq!(seen(&network, "b"), vec![10, 11, 30, 31]);
    assert_eq!(seen(&network, "a"), Vec::<u8>::new());
    assert_eq!(seen(&network, "c"), Vec::<u8>::new());
}

#[test]
fn destroy_node_removes_the_node_and_its_edges() {
    let mut network = three_nodes();
    network.connect("a", "b").unwrap();
    network.connect("b", "c").unwrap();
    network.destroy_node("b");
    assert_eq!(network.node_names(), vec!["a".to_string(), "c".to_string()]);
    assert!(network.node("b").is_none());
    assert!(peers(&network, "a").is_empty());
    assert!(peers(&network, "c").is_empty());
    network.destroy_node("b");
    assert_eq!(network.node_names().len(), 2);
}

#[test]
fn node_connect_refuses_its_own_name() {
    let mut node = NetworkNode::new("a", Recorder::new());
    assert_eq!(node.connect("a"), Err(NetworkError::SelfConnection));
    assert_eq!(node.connect("b"), Ok(()));
    assert_eq!(node.connect("b"), Ok(()));
    assert_eq!(node.peers(), &vec!["b".to_string()]);
    assert_eq!(node.name(), "a");
    assert!(node.broadcast().is_empty());
}
