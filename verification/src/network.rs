//! The topology router: named nodes joined by symmetric peer edges. Bytes
//! that a node broadcasts are queued, and handed to the receivers of its peers
//! once per tick.

use vstd::prelude::*;

verus! {

/// Why a topology operation was refused.
#[derive(Debug, Clone, Copy, PartialEq, Eq, Structural)]
pub enum NetworkError {
    /// The operation names a node that is not registered.
    UnknownNode,
    /// The two ends of an edge are the same node.
    SelfConnection,
    /// A node of that name is registered already.
    DuplicateNode,
}

/// What owns a node implements this to be handed the bytes its peers
/// broadcast.
pub trait NetworkReceive {
    /// Takes one byte. The router calls this once for each byte it delivers,
    /// in order; what the receiver does with the byte is its own affair.
    fn receive(&mut self, b: u8);
}

/// The mathematical content of a node.
pub struct NodeState {
    /// The node's identity.
    pub name: Seq<char>,
    /// The names of the nodes it is joined to.
    pub peers: Set<Seq<char>>,
    /// The bytes it has broadcast since the last delivery.
    pub outgoing: Seq<u8>,
    /// Every byte that the router has handed to its receiver so far, oldest
    /// first.
    pub handed: Seq<u8>,
}

/// The views of a list of names.
pub open spec fn names_of(list: Seq<String>) -> Seq<Seq<char>> {
    list.map_values(|s: String| s@)
}

/// `n` joined to `peer`.
pub open spec fn with_peer(n: NodeState, peer: Seq<char>) -> NodeState {
    NodeState { peers: n.peers.insert(peer), ..n }
}

/// `n` no longer joined to `peer`.
pub open spec fn without_peer(n: NodeState, peer: Seq<char>) -> NodeState {
    NodeState { peers: n.peers.remove(peer), ..n }
}

/// `n` with `data` appended to its queue.
pub open spec fn with_queued(n: NodeState, data: Seq<u8>) -> NodeState {
    NodeState { outgoing: n.outgoing + data, ..n }
}

/// A participant of the network: its name, its peers, the bytes it has
/// broadcast since the last delivery, and its receiver.
pub struct NetworkNode<R> {
    name: String,
    peers: Vec<String>,
    outgoing: Vec<u8>,
    receiver: R,
    handed: Ghost<Seq<u8>>,
}

/// Whether `list` holds a string that reads `key`.
pub open spec fn lists(list: Seq<String>, key: Seq<char>) -> bool {
    exists|i: int| 0 <= i < list.len() && (#[trigger] list[i])@ == key
}

/// The position of the string that reads `key` in `list`, if there is one.
fn position_of(list: &Vec<String>, key: &String) -> (r: Option<usize>)
    ensures
        match r {
            Some(i) => i < list@.len() && list@[i as int]@ == key@,
            None => !lists(list@, key@),
        },
{
    let mut i: usize = 0;
    while i < list.len()
        invariant
            i <= list@.len(),
            forall|k: int| 0 <= k < i ==> (#[trigger] list@[k])@ != key@,
        decreases list@.len() - i,
    {
        if list[i] == *key {
            return Some(i);
        }
        i += 1;
    }
    None
}

impl<R: NetworkReceive> View for NetworkNode<R> {
    type V = NodeState;

    closed spec fn view(&self) -> NodeState {
        NodeState {
            name: self.name@,
            peers: names_of(self.peers@).to_set(),
            outgoing: self.outgoing@,
            handed: self.handed@,
        }
    }
}

impl<R: NetworkReceive> NetworkNode<R> {
    /// The invariant of a node's representation: no peer is listed twice.
    pub closed spec fn inv(&self) -> bool {
        forall|i: int, j: int|
            0 <= i < j < self.peers@.len() ==> (#[trigger] self.peers@[i])@ != (
            #[trigger] self.peers@[j])@
    }

    /// A node named `name` with no peers, nothing queued, and a receiver that
    /// has been handed nothing.
    pub fn new(name: &str, receiver: R) -> (n: Self)
        ensures
            n.inv(),
            n@ == fresh_node(name@),
    {
        let n = NetworkNode {
            name: name.to_owned(),
            peers: Vec::new(),
            outgoing: Vec::new(),
            receiver,
            handed: Ghost(Seq::empty()),
        };
        assert(names_of(n.peers@).to_set() =~= Set::<Seq<char>>::empty());
        n
    }

    /// Joins the node to `peer_name`. A node is never its own peer.
    pub fn connect(&mut self, peer_name: &str) -> (r: Result<(), NetworkError>)
        requires
            old(self).inv(),
        ensures
            final(self).inv(),
            r is Err <==> old(self)@.name == peer_name@,
            match r {
                Ok(_) => final(self)@ == with_peer(old(self)@, peer_name@),
                Err(e) => e == NetworkError::SelfConnection && *final(self) == *old(self),
            },
    {
        let peer = peer_name.to_owned();
        if self.name == peer {
            return Err(NetworkError::SelfConnection);
        }
        self.add_peer(peer);
        Ok(())
    }

    /// The bytes that the node has queued for its peers.
    pub fn broadcast(&mut self) -> (data: Vec<u8>)
        ensures
            *final(self) == *old(self),
            data@ == old(self)@.outgoing,
    {
        let mut data: Vec<u8> = Vec::new();
        data.extend_from_slice(self.outgoing.as_slice());
        data
    }

    /// The node's name.
    pub fn name(&self) -> (r: &String)
        ensures
            r@ == self@.name,
    {
        &self.name
    }

    /// The names of the node's peers, each once.
    pub fn peers(&self) -> (r: &Vec<String>)
        ensures
            names_of(r@).to_set() == self@.peers,
            self.inv() ==> names_of(r@).no_duplicates(),
    {
        proof {
            if self.inv() {
                assert forall|i: int, j: int|
                    0 <= i < names_of(self.peers@).len() && 0 <= j < names_of(self.peers@).len()
                        && i != j implies names_of(self.peers@)[i] != names_of(self.peers@)[j] by {
                    if i < j {
                        assert(self.peers@[i]@ != self.peers@[j]@);
                    } else {
                        assert(self.peers@[j]@ != self.peers@[i]@);
                    }
                }
            }
        }
        &self.peers
    }

    /// The node's receiver.
    pub closed spec fn spec_receiver(&self) -> R {
        self.receiver
    }

    /// The node's receiver.
    pub fn receiver(&self) -> (r: &R)
        ensures
            *r == self.spec_receiver(),
    {
        &self.receiver
    }

    /// Lists `peer` among the node's peers unless it is there already.
    fn add_peer(&mut self, peer: String)
        requires
            old(self).inv(),
        ensures
            final(self).inv(),
            final(self)@ == with_peer(old(self)@, peer@),
            final(self).name == old(self).name,
            final(self).outgoing == old(self).outgoing,
            final(self).receiver == old(self).receiver,
            final(self).handed == old(self).handed,
    {
        let ghost before = names_of(self.peers@);
        match position_of(&self.peers, &peer) {
            Some(i) => {
                assert(before[i as int] == peer@);
                assert(before.to_set().insert(peer@) =~= before.to_set());
            },
            None => {
                let ghost key = peer@;
                self.peers.push(peer);
                assert(names_of(self.peers@) =~= before.push(key));
                assert(before.push(key).to_set() =~= before.to_set().insert(key)) by {
                    assert forall|x: Seq<char>|
                        before.push(key).to_set().contains(x) <==> before.to_set().insert(
                            key,
                        ).contains(x) by {
                        if before.push(key).contains(x) {
                            let k = choose|k: int|
                                0 <= k < before.push(key).len() && before.push(key)[k] == x;
                            if k < before.len() {
                                assert(before[k] == x);
                            }
                        }
                        if before.contains(x) {
                            let k = choose|k: int| 0 <= k < before.len() && before[k] == x;
                            assert(before.push(key)[k] == x);
                        }
                        if x == key {
                            assert(before.push(key)[before.len() as int] == x);
                        }
                    }
                }
            },
        }
    }

    /// Strikes `peer` from the node's peers if it is listed.
    fn drop_peer(&mut self, peer: &String)
        requires
            old(self).inv(),
        ensures
            final(self).inv(),
            final(self)@ == without_peer(old(self)@, peer@),
            final(self).name == old(self).name,
            final(self).outgoing == old(self).outgoing,
            final(self).receiver == old(self).receiver,
            final(self).handed == old(self).handed,
    {
        let ghost before = names_of(self.peers@);
        match position_of(&self.peers, peer) {
            Some(i) => {
                let ghost old_peers = self.peers@;
                self.peers.remove(i);
                let ghost after = names_of(self.peers@);
                assert(after =~= before.remove(i as int));
                assert forall|x: Seq<char>|
                    after.to_set().contains(x) <==> before.to_set().remove(peer@).contains(
                        x,
                    ) by {
                    if after.contains(x) {
                        let k = choose|k: int| 0 <= k < after.len() && after[k] == x;
                        if k < i {
                            assert(before[k] == x);
                            assert(old_peers[k]@ != old_peers[i as int]@);
                        } else {
                            assert(before[k + 1] == x);
                            assert(old_peers[i as int]@ != old_peers[k + 1]@);
                        }
                    }
                    if before.contains(x) && x != peer@ {
                        let k = choose|k: int| 0 <= k < before.len() && before[k] == x;
                        if k < i {
                            assert(after[k] == x);
                        } else {
                            assert(after[k - 1] == x);
                        }
                    }
                }
                assert(after.to_set() =~= before.to_set().remove(peer@));
            },
            None => {
                assert forall|x: Seq<char>| before.to_set().contains(x) implies x != peer@ by {
                    let k = choose|k: int| 0 <= k < before.len() && before[k] == x;
                    assert(self.peers@[k]@ == x);
                }
                assert(before.to_set().remove(peer@) =~= before.to_set());
            },
        }
    }
}

/// Whether a node named `name` is among `nodes`.
pub open spec fn has_node(nodes: Seq<NodeState>, name: Seq<char>) -> bool {
    exists|i: int| 0 <= i < nodes.len() && (#[trigger] nodes[i]).name == name
}

/// The invariant of a topology: names are unique, no node is its own peer,
/// every peer is a registered node, and every edge is listed at both of its
/// ends.
pub open spec fn well_formed(nodes: Seq<NodeState>) -> bool {
    &&& forall|i: int, j: int|
        0 <= i < j < nodes.len() ==> (#[trigger] nodes[i]).name != (#[trigger] nodes[j]).name
    &&& forall|i: int| 0 <= i < nodes.len() ==> !(#[trigger] nodes[i]).peers.contains(nodes[i].name)
    &&& forall|i: int, p: Seq<char>|
        0 <= i < nodes.len() && #[trigger] nodes[i].peers.contains(p) ==> has_node(nodes, p)
    &&& forall|i: int, j: int|
        0 <= i < nodes.len() && 0 <= j < nodes.len() && (#[trigger] nodes[i]).peers.contains(
            (#[trigger] nodes[j]).name,
        ) ==> nodes[j].peers.contains(nodes[i].name)
}

/// A fresh node: no peers, nothing queued, nothing handed to its receiver.
pub open spec fn fresh_node(name: Seq<char>) -> NodeState {
    NodeState { name, peers: Set::empty(), outgoing: Seq::empty(), handed: Seq::empty() }
}

/// What registering a node gives: the nodes with a fresh one at the end,
/// unless the name is taken.
pub open spec fn create_spec(nodes: Seq<NodeState>, name: Seq<char>) -> Result<
    Seq<NodeState>,
    NetworkError,
> {
    if has_node(nodes, name) {
        Err(NetworkError::DuplicateNode)
    } else {
        Ok(nodes.push(fresh_node(name)))
    }
}

/// The nodes without the one named `name` and without any edge to it.
pub open spec fn destroy_spec(nodes: Seq<NodeState>, name: Seq<char>) -> Seq<NodeState> {
    nodes.filter(|n: NodeState| n.name != name).map_values(|n: NodeState| without_peer(n, name))
}

/// The nodes with the edge between `a` and `b` listed at both ends.
pub open spec fn linked(nodes: Seq<NodeState>, a: Seq<char>, b: Seq<char>) -> Seq<NodeState> {
    nodes.map_values(
        |n: NodeState|
            if n.name == a {
                with_peer(n, b)
            } else if n.name == b {
                with_peer(n, a)
            } else {
                n
            },
    )
}

/// The nodes with the edge between `a` and `b` struck at both ends.
pub open spec fn unlinked(nodes: Seq<NodeState>, a: Seq<char>, b: Seq<char>) -> Seq<NodeState> {
    nodes.map_values(
        |n: NodeState|
            if n.name == a {
                without_peer(n, b)
            } else if n.name == b {
                without_peer(n, a)
            } else {
                n
            },
    )
}

/// What joining `a` and `b` gives. Both must be registered, and they must
/// differ.
pub open spec fn connect_spec(nodes: Seq<NodeState>, a: Seq<char>, b: Seq<char>) -> Result<
    Seq<NodeState>,
    NetworkError,
> {
    if !has_node(nodes, a) {
        Err(NetworkError::UnknownNode)
    } else if a == b {
        Err(NetworkError::SelfConnection)
    } else if !has_node(nodes, b) {
        Err(NetworkError::UnknownNode)
    } else {
        Ok(linked(nodes, a, b))
    }
}

/// What parting `a` and `b` gives. Both must be registered.
pub open spec fn disconnect_spec(nodes: Seq<NodeState>, a: Seq<char>, b: Seq<char>) -> Result<
    Seq<NodeState>,
    NetworkError,
> {
    if !has_node(nodes, a) || !has_node(nodes, b) {
        Err(NetworkError::UnknownNode)
    } else {
        Ok(unlinked(nodes, a, b))
    }
}

/// The nodes with `data` at the end of the queue of the node named `name`.
pub open spec fn queued(nodes: Seq<NodeState>, name: Seq<char>, data: Seq<u8>) -> Seq<NodeState> {
    nodes.map_values(
        |n: NodeState|
            if n.name == name {
                with_queued(n, data)
            } else {
                n
            },
    )
}

/// What a broadcast from `name` gives: `data` at the end of that node's
/// queue.
pub open spec fn broadcast_spec(nodes: Seq<NodeState>, name: Seq<char>, data: Seq<u8>) -> Result<
    Seq<NodeState>,
    NetworkError,
> {
    if !has_node(nodes, name) {
        Err(NetworkError::UnknownNode)
    } else {
        Ok(queued(nodes, name, data))
    }
}

/// The bytes that one delivery hands to the node named `recipient` from the
/// first `k` nodes: the queue of each node that lists the recipient as a peer,
/// whole and in order, one node after the other.
pub open spec fn inbound(nodes: Seq<NodeState>, recipient: Seq<char>, k: int) -> Seq<u8>
    decreases k,
{
    if k <= 0 {
        Seq::empty()
    } else {
        inbound(nodes, recipient, k - 1) + (if nodes[k - 1].peers.contains(recipient) {
            nodes[k - 1].outgoing
        } else {
            Seq::empty()
        })
    }
}

/// The nodes after one delivery: every receiver has been handed what its
/// peers had queued, and every queue is empty.
pub open spec fn delivered(nodes: Seq<NodeState>) -> Seq<NodeState> {
    nodes.map_values(
        |n: NodeState|
            NodeState {
                outgoing: Seq::empty(),
                handed: n.handed + inbound(nodes, n.name, nodes.len() as int),
                ..n
            },
    )
}

/// The router: the nodes in the order in which they were registered.
pub struct Network<R> {
    nodes: Vec<NetworkNode<R>>,
}

impl<R: NetworkReceive> View for Network<R> {
    type V = Seq<NodeState>;

    closed spec fn view(&self) -> Seq<NodeState> {
        self.nodes@.map_values(|n: NetworkNode<R>| n@)
    }
}

impl<R: NetworkReceive> Network<R> {
    /// The invariant of the representation.
    pub closed spec fn inv(&self) -> bool {
        forall|i: int| 0 <= i < self.nodes@.len() ==> (#[trigger] self.nodes@[i]).inv()
    }

    /// The invariant of a router: its representation is sound and its
    /// topology is well-formed.
    pub open spec fn wf(&self) -> bool {
        self.inv() && well_formed(self@)
    }

    /// A router without nodes.
    pub fn new() -> (n: Self)
        ensures
            n.wf(),
            n@ == Seq::<NodeState>::empty(),
    {
        let n = Network { nodes: Vec::new() };
        assert(n@ =~= Seq::<NodeState>::empty());
        n
    }

    /// The position of the node named `key`, if it is registered.
    fn find(&self, key: &String) -> (r: Option<usize>)
        ensures
            match r {
                Some(i) => i < self.nodes@.len() && self@[i as int].name == key@,
                None => !has_node(self@, key@),
            },
    {
        let mut i: usize = 0;
        while i < self.nodes.len()
            invariant
                i <= self.nodes@.len(),
                forall|k: int| 0 <= k < i ==> (#[trigger] self@[k]).name != key@,
            decreases self.nodes@.len() - i,
        {
            if self.nodes[i].name == *key {
                return Some(i);
            }
            i += 1;
        }
        None
    }

    /// Registers a node named `name` with its receiver. Names are unique.
    pub fn create_node(&mut self, name: &str, receiver: R) -> (r: Result<(), NetworkError>)
        requires
            old(self).wf(),
        ensures
            final(self).wf(),
            match r {
                Ok(_) => create_spec(old(self)@, name@) == Ok::<Seq<NodeState>, NetworkError>(
                    final(self)@,
                ),
                Err(e) => create_spec(old(self)@, name@) == Err::<Seq<NodeState>, NetworkError>(e)
                    && final(self)@ == old(self)@,
            },
    {
        let key = name.to_owned();
        if self.find(&key).is_some() {
            return Err(NetworkError::DuplicateNode);
        }
        let node = NetworkNode::new(name, receiver);
        let ghost before = self@;
        self.nodes.push(node);
        proof {
            let after = self@;
            assert(after =~= before.push(fresh_node(name@)));
            assert forall|i: int, p: Seq<char>|
                0 <= i < after.len() && #[trigger] after[i].peers.contains(p) implies has_node(
                after,
                p,
            ) by {
                assert(has_node(before, p));
                let k = choose|k: int| 0 <= k < before.len() && (#[trigger] before[k]).name == p;
                assert(after[k].name == p);
            }
        }
        Ok(())
    }

    /// Queues `data` behind what the node named `node_name` has broadcast
    /// since the last delivery. Nothing is delivered yet.
    pub fn broadcast_from(&mut self, node_name: &str, data: &Vec<u8>) -> (r: Result<
        (),
        NetworkError,
    >)
        requires
            old(self).wf(),
        ensures
            final(self).wf(),
            match r {
                Ok(_) => broadcast_spec(old(self)@, node_name@, data@) == Ok::<
                    Seq<NodeState>,
                    NetworkError,
                >(final(self)@),
                Err(e) => broadcast_spec(old(self)@, node_name@, data@) == Err::<
                    Seq<NodeState>,
                    NetworkError,
                >(e) && final(self)@ == old(self)@,
            },
    {
        let key = node_name.to_owned();
        match self.find(&key) {
            None => Err(NetworkError::UnknownNode),
            Some(i) => {
                let ghost before = self@;
                let ghost old_nodes = self.nodes@;
                self.nodes[i].outgoing.extend_from_slice(data.as_slice());
                proof {
                    let after = self@;
                    assert forall|k: int| 0 <= k < before.len() implies #[trigger] after[k] == (
                    if before[k].name == node_name@ {
                        with_queued(before[k], data@)
                    } else {
                        before[k]
                    }) by {
                        if k == i {
                            assert(self.nodes@[k].name == old_nodes[k].name);
                            assert(self.nodes@[k].peers == old_nodes[k].peers);
                            assert(self.nodes@[k].handed == old_nodes[k].handed);
                            assert(self.nodes@[k].outgoing@ == old_nodes[k].outgoing@ + data@);
                        } else {
                            assert(self.nodes@[k] == old_nodes[k]);
                            if k < i {
                                assert(before[k].name != before[i as int].name);
                            } else {
                                assert(before[i as int].name != before[k].name);
                            }
                        }
                    }
                    assert(after =~= broadcast_spec(before, node_name@, data@)->Ok_0);
                    lemma_same_topology(before, after);
                }
                Ok(())
            },
        }
    }

    /// The names of the registered nodes, in the order of registration.
    pub fn node_names(&self) -> (names: Vec<String>)
        ensures
            names_of(names@) == self@.map_values(|n: NodeState| n.name),
    {
        let mut names: Vec<String> = Vec::new();
        let mut i: usize = 0;
        while i < self.nodes.len()
            invariant
                i <= self.nodes@.len(),
                names@.len() == i,
                forall|k: int| 0 <= k < i ==> (#[trigger] names@[k])@ == self@[k].name,
            decreases self.nodes@.len() - i,
        {
            names.push(self.nodes[i].name.clone());
            i += 1;
        }
        assert(names_of(names@) =~= self@.map_values(|n: NodeState| n.name));
        names
    }

    /// The node named `name`, if it is registered.
    pub fn node(&self, name: &str) -> (r: Option<&NetworkNode<R>>)
        requires
            self.wf(),
        ensures
            r is Some <==> has_node(self@, name@),
            r matches Some(n) ==> n.inv() && n@ == node_named(self@, name@),
    {
        let key = name.to_owned();
        match self.find(&key) {
            None => None,
            Some(i) => {
                proof {
                    assert(self@[i as int] == self.nodes@[i as int]@);
                    lemma_node_named(self@, i as int);
                }
                Some(&self.nodes[i])
            },
        }
    }
    /// Removes the node named `name` and every edge to it. Nothing changes if
    /// no such node is registered.
    pub fn destroy_node(&mut self, name: &str)
        requires
            old(self).wf(),
        ensures
            final(self).wf(),
            final(self)@ == destroy_spec(old(self)@, name@),
    {
        let key = name.to_owned();
        let ghost before = self@;
        let ghost keep = |n: NodeState| n.name != name@;
        match self.find(&key) {
            None => {
                proof {
                    lemma_filter_keeps_all(before, keep);
                    assert forall|k: int| 0 <= k < before.len() implies without_peer(
                        #[trigger] before[k],
                        name@,
                    ) == before[k] by {
                        if before[k].peers.contains(name@) {
                            assert(has_node(before, name@));
                        }
                        assert(before[k].peers.remove(name@) =~= before[k].peers);
                    }
                    assert(destroy_spec(before, name@) =~= before);
                }
            },
            Some(i) => {
                self.nodes.remove(i);
                let ghost mid = self@;
                let ghost mid_nodes = self.nodes@;
                proof {
                    assert(mid =~= before.remove(i as int));
                    assert forall|k: int| 0 <= k < before.len() && k != i implies keep(
                        #[trigger] before[k],
                    ) by {
                        if k < i {
                            assert(before[k].name != before[i as int].name);
                        } else {
                            assert(before[i as int].name != before[k].name);
                        }
                    }
                    lemma_filter_drops_one(before, keep, i as int);
                }
                let mut k: usize = 0;
                while k < self.nodes.len()
                    invariant
                        k <= self.nodes@.len(),
                        self.nodes@.len() == mid_nodes.len(),
                        self.inv(),
                        mid == mid_nodes.map_values(|n: NetworkNode<R>| n@),
                        forall|j: int| 0 <= j < k ==> (#[trigger] self@[j]) == without_peer(mid[j], key@),
                        forall|j: int|
                            k <= j < mid_nodes.len() ==> (#[trigger] self.nodes@[j]) == mid_nodes[j],
                    decreases self.nodes@.len() - k,
                {
                    let ghost prev = self.nodes@;
                    let ghost prev_view = self@;
                    self.nodes[k].drop_peer(&key);
                    proof {
                        assert forall|j: int| 0 <= j < k + 1 implies (#[trigger] self@[j])
                            == without_peer(mid[j], key@) by {
                            if j < k {
                                assert(self.nodes@[j] == prev[j]);
                                assert(prev_view[j] == without_peer(mid[j], key@));
                            } else {
                                assert(prev[j] == mid_nodes[j]);
                            }
                        }
                        assert forall|j: int| k + 1 <= j < mid_nodes.len() implies (
                        #[trigger] self.nodes@[j]) == mid_nodes[j] by {
                            assert(self.nodes@[j] == prev[j]);
                        }
                        assert forall|j: int| 0 <= j < self.nodes@.len() implies (
                        #[trigger] self.nodes@[j]).inv() by {
                            if j != k {
                                assert(self.nodes@[j] == prev[j]);
                            }
                        }
                    }
                    k += 1;
                }
                proof {
                    let after = self@;
                    assert(after =~= destroy_spec(before, name@));
                    lemma_destroy_keeps_well_formed(before, name@, i as int);
                }
            },
        }
    }

    /// Joins the nodes named `node1_name` and `node2_name`, in both
    /// directions. Nothing changes when the edge is refused.
    pub fn connect(&mut self, node1_name: &str, node2_name: &str) -> (r: Result<(), NetworkError>)
        requires
            old(self).wf(),
        ensures
            final(self).wf(),
            match r {
                Ok(_) => connect_spec(old(self)@, node1_name@, node2_name@) == Ok::<
                    Seq<NodeState>,
                    NetworkError,
                >(final(self)@),
                Err(e) => connect_spec(old(self)@, node1_name@, node2_name@) == Err::<
                    Seq<NodeState>,
                    NetworkError,
                >(e) && final(self)@ == old(self)@,
            },
    {
        let a = node1_name.to_owned();
        let b = node2_name.to_owned();
        let i = match self.find(&a) {
            None => {
                return Err(NetworkError::UnknownNode);
            },
            Some(i) => i,
        };
        if a == b {
            return Err(NetworkError::SelfConnection);
        }
        let j = match self.find(&b) {
            None => {
                return Err(NetworkError::UnknownNode);
            },
            Some(j) => j,
        };
        let ghost before = self@;
        let ghost start = self.nodes@;
        self.nodes[i].add_peer(b);
        let ghost half = self.nodes@;
        self.nodes[j].add_peer(a);
        proof {
            let after = self@;
            assert forall|k: int| 0 <= k < before.len() implies #[trigger] after[k] == (
            if before[k].name == node1_name@ {
                with_peer(before[k], node2_name@)
            } else if before[k].name == node2_name@ {
                with_peer(before[k], node1_name@)
            } else {
                before[k]
            }) by {
                lemma_distinct_names(before, k, i as int);
                lemma_distinct_names(before, k, j as int);
                if k == i {
                    assert(self.nodes@[k] == half[k]);
                    assert(half[k]@ == with_peer(start[k]@, node2_name@));
                } else if k == j {
                    assert(half[k] == start[k]);
                } else {
                    assert(self.nodes@[k] == half[k]);
                    assert(half[k] == start[k]);
                }
            }
            assert(after =~= linked(before, node1_name@, node2_name@));
            assert forall|k: int| 0 <= k < self.nodes@.len() implies (#[trigger] self.nodes@[k]).inv() by {
                if k == j {
                } else if k == i {
                    assert(self.nodes@[k] == half[k]);
                } else {
                    assert(self.nodes@[k] == half[k]);
                    assert(half[k] == start[k]);
                }
            }
            lemma_linked_well_formed(before, node1_name@, node2_name@);
        }
        Ok(())
    }

    /// Parts the nodes named `node1_name` and `node2_name`, in both
    /// directions. Nothing changes when a name is not registered.
    pub fn disconnect(&mut self, node1_name: &str, node2_name: &str) -> (r: Result<
        (),
        NetworkError,
    >)
        requires
            old(self).wf(),
        ensures
            final(self).wf(),
            match r {
                Ok(_) => disconnect_spec(old(self)@, node1_name@, node2_name@) == Ok::<
                    Seq<NodeState>,
                    NetworkError,
                >(final(self)@),
                Err(e) => disconnect_spec(old(self)@, node1_name@, node2_name@) == Err::<
                    Seq<NodeState>,
                    NetworkError,
                >(e) && final(self)@ == old(self)@,
            },
    {
        let a = node1_name.to_owned();
        let b = node2_name.to_owned();
        let i = match self.find(&a) {
            None => {
                return Err(NetworkError::UnknownNode);
            },
            Some(i) => i,
        };
        let j = match self.find(&b) {
            None => {
                return Err(NetworkError::UnknownNode);
            },
            Some(j) => j,
        };
        let ghost before = self@;
        let ghost start = self.nodes@;
        self.nodes[i].drop_peer(&b);
        let ghost half = self.nodes@;
        self.nodes[j].drop_peer(&a);
        proof {
            let after = self@;
            assert forall|k: int| 0 <= k < before.len() implies #[trigger] after[k] == (
            if before[k].name == node1_name@ {
                without_peer(before[k], node2_name@)
            } else if before[k].name == node2_name@ {
                without_peer(before[k], node1_name@)
            } else {
                before[k]
            }) by {
                lemma_distinct_names(before, k, i as int);
                lemma_distinct_names(before, k, j as int);
                if k == i && k == j {
                    assert(half[k]@ == without_peer(start[k]@, node2_name@));
                    assert(after[k].peers =~= before[k].peers.remove(node2_name@));
                } else if k == i {
                    assert(self.nodes@[k] == half[k]);
                    assert(half[k]@ == without_peer(start[k]@, node2_name@));
                } else if k == j {
                    assert(half[k] == start[k]);
                } else {
                    assert(self.nodes@[k] == half[k]);
                    assert(half[k] == start[k]);
                }
            }
            assert(after =~= unlinked(before, node1_name@, node2_name@));
            assert forall|k: int| 0 <= k < self.nodes@.len() implies (#[trigger] self.nodes@[k]).inv() by {
                if k == j {
                } else if k == i {
                    assert(self.nodes@[k] == half[k]);
                } else {
                    assert(self.nodes@[k] == half[k]);
                    assert(half[k] == start[k]);
                }
            }
            lemma_unlinked_well_formed(before, node1_name@, node2_name@);
        }
        Ok(())
    }
    /// Whether `self` differs from `start` in nothing but what its receivers
    /// have been handed.
    closed spec fn same_wiring(&self, start: Seq<NetworkNode<R>>) -> bool {
        &&& self.nodes@.len() == start.len()
        &&& forall|k: int|
            0 <= k < start.len() ==> (#[trigger] self.nodes@[k]).name == start[k].name
                && self.nodes@[k].peers == start[k].peers && self.nodes@[k].outgoing
                == start[k].outgoing
    }

    /// Hands everything that the node at `from` has queued to the receiver of
    /// the node at `to`, byte by byte in queue order.
    fn hand_over(&mut self, from: usize, to: usize)
        requires
            old(self).inv(),
            from < old(self).nodes@.len(),
            to < old(self).nodes@.len(),
        ensures
            final(self).inv(),
            final(self).same_wiring(old(self).nodes@),
            forall|k: int|
                0 <= k < old(self).nodes@.len() && k != to ==> (#[trigger] final(self).nodes@[k])
                    == old(self).nodes@[k],
            final(self).nodes@[to as int].handed@ == old(self).nodes@[to as int].handed@ + old(self).nodes@[from as int].outgoing@,
    {
        let ghost start = self.nodes@;
        let n = self.nodes[from].outgoing.len();
        let mut k: usize = 0;
        assert(start[from as int].outgoing@.take(0) =~= Seq::<u8>::empty());
        assert(start[to as int].handed@ + Seq::<u8>::empty()
            =~= start[to as int].handed@);
        while k < n
            invariant
                k <= n,
                n == start[from as int].outgoing@.len(),
                from < start.len(),
                to < start.len(),
                self.inv(),
                self.same_wiring(start),
                forall|j: int|
                    0 <= j < start.len() && j != to ==> (#[trigger] self.nodes@[j]) == start[j],
                self.nodes@[to as int].handed@ == start[to as int].handed@
                    + start[from as int].outgoing@.take(k as int),
            decreases n - k,
        {
            let ghost prev = self.nodes@;
            let b = self.nodes[from].outgoing[k];
            self.nodes[to].receiver.receive(b);
            self.nodes[to].handed = Ghost(self.nodes[to as int].handed@.push(b));
            proof {
                let queue = start[from as int].outgoing@;
                assert(b == queue[k as int]);
                assert(queue.take(k + 1) =~= queue.take(k as int).push(b));
                assert((start[to as int].handed@ + queue.take(k as int)).push(b)
                    =~= start[to as int].handed@ + queue.take(k + 1));
                assert forall|j: int| 0 <= j < start.len() implies (#[trigger] self.nodes@[j]).name
                    == start[j].name && self.nodes@[j].peers == start[j].peers
                    && self.nodes@[j].outgoing == start[j].outgoing by {
                    if j != to {
                        assert(self.nodes@[j] == prev[j]);
                    }
                }
                assert forall|j: int| 0 <= j < self.nodes@.len() implies (
                #[trigger] self.nodes@[j]).inv() by {
                    assert(prev[j].inv());
                    if j != to {
                        assert(self.nodes@[j] == prev[j]);
                    } else {
                        assert(self.nodes@[j].peers == prev[j].peers);
                    }
                }
            }
            k += 1;
        }
        assert(start[from as int].outgoing@.take(n as int) =~= start[from as int].outgoing@);
    }

    /// Hands everything that the node at `from` has queued to the receiver of
    /// each of its peers.
    fn deliver_from(&mut self, from: usize)
        requires
            old(self).wf(),
            from < old(self).nodes@.len(),
        ensures
            final(self).inv(),
            final(self).same_wiring(old(self).nodes@),
            forall|k: int|
                0 <= k < old(self).nodes@.len() ==> (#[trigger] final(self).nodes@[k]).handed@ == old(self).nodes@[k].handed@ + (
                if old(self)@[from as int].peers.contains(old(self)@[k].name) {
                    old(self)@[from as int].outgoing
                } else {
                    Seq::<u8>::empty()
                }),
    {
        let ghost start = self.nodes@;
        let ghost view0 = self@;
        let ghost peer_names = names_of(start[from as int].peers@);
        let ghost queue = start[from as int].outgoing@;
        let n = self.nodes[from].peers.len();
        let mut q: usize = 0;
        assert forall|k: int| 0 <= k < start.len() implies (#[trigger] self.nodes@[k]).handed@
            == start[k].handed@ + Seq::<u8>::empty() by {
            assert(start[k].handed@ + Seq::<u8>::empty()
                =~= start[k].handed@);
        }
        while q < n
            invariant
                q <= n,
                n == start[from as int].peers@.len(),
                from < start.len(),
                view0 == start.map_values(|n: NetworkNode<R>| n@),
                well_formed(view0),
                start[from as int].inv(),
                self.inv(),
                peer_names == names_of(start[from as int].peers@),
                queue == start[from as int].outgoing@,
                self.same_wiring(start),
                forall|k: int|
                    0 <= k < start.len() ==> (#[trigger] self.nodes@[k]).handed@
                        == start[k].handed@ + (if peer_names.take(q as int).contains(
                        start[k].name@,
                    ) {
                        queue
                    } else {
                        Seq::<u8>::empty()
                    }),
            decreases n - q,
        {
            let ghost prev = self.nodes@;
            let ghost p = peer_names[q as int];
            assert(self.nodes@[from as int].peers == start[from as int].peers);
            let found = self.find(&self.nodes[from].peers[q]);
            assert(p == start[from as int].peers@[q as int]@);
            proof {
                assert(names_of(start[from as int].peers@).contains(p));
                assert(view0[from as int].peers.contains(p));
                assert(has_node(view0, p));
                let w = choose|w: int| 0 <= w < view0.len() && (#[trigger] view0[w]).name == p;
                assert(self@[w].name == p) by {
                    assert(self.nodes@[w].name == start[w].name);
                }
                assert(has_node(self@, p));
            }
            match found {
                None => {},
                Some(to) => {
                    assert(self.nodes@[to as int].name == start[to as int].name);
                    assert(self.nodes@[from as int].outgoing == start[from as int].outgoing);
                    self.hand_over(from, to);
                    proof {
                        assert(peer_names.take(q + 1) =~= peer_names.take(q as int).push(p));
                        assert forall|k: int| 0 <= k < start.len() implies (
                        #[trigger] self.nodes@[k]).handed@
                            == start[k].handed@ + (if peer_names.take(
                            q + 1,
                        ).contains(start[k].name@) {
                            queue
                        } else {
                            Seq::<u8>::empty()
                        }) by {
                            let name_k = start[k].name@;
                            let shorter = peer_names.take(q as int);
                            let longer = peer_names.take(q + 1);
                            assert(view0[k].name == name_k);
                            assert(view0[to as int].name == p);
                            lemma_distinct_names(view0, k, to as int);
                            if k == to {
                                assert(longer[q as int] == name_k);
                                if shorter.contains(name_k) {
                                    let x = choose|x: int|
                                        0 <= x < shorter.len() && shorter[x] == name_k;
                                    assert(start[from as int].peers@[x]@
                                        != start[from as int].peers@[q as int]@);
                                }
                                assert(prev[k].handed@ + queue
                                    =~= start[k].handed@ + queue);
                            } else {
                                assert(self.nodes@[k] == prev[k]);
                                if longer.contains(name_k) {
                                    let x = choose|x: int|
                                        0 <= x < longer.len() && longer[x] == name_k;
                                    assert(x != q);
                                    assert(shorter[x] == name_k);
                                }
                                if shorter.contains(name_k) {
                                    let x = choose|x: int|
                                        0 <= x < shorter.len() && shorter[x] == name_k;
                                    assert(longer[x] == name_k);
                                }
                            }
                        }
                    }
                },
            }
            q += 1;
        }
        proof {
            assert(peer_names.take(n as int) =~= peer_names);
            assert forall|k: int| 0 <= k < start.len() implies (peer_names.contains(start[k].name@)
                <==> view0[from as int].peers.contains(#[trigger] view0[k].name)) by {}
        }
    }

    /// Hands to the receiver of every node what each of its peers has queued,
    /// byte by byte in queue order and one sender after the other in the order
    /// of registration, and then empties every queue.
    pub fn deliver_messages(&mut self)
        requires
            old(self).wf(),
        ensures
            final(self).wf(),
            final(self)@ == delivered(old(self)@),
    {
        let ghost start = self.nodes@;
        let ghost view0 = self@;
        let n = self.nodes.len();
        let mut i: usize = 0;
        assert forall|k: int| 0 <= k < start.len() implies (#[trigger] self.nodes@[k]).handed@
            == start[k].handed@ + inbound(view0, view0[k].name, 0) by {
            assert(start[k].handed@ + Seq::<u8>::empty()
                =~= start[k].handed@);
        }
        while i < n
            invariant
                i <= n,
                n == start.len(),
                view0 == start.map_values(|n: NetworkNode<R>| n@),
                well_formed(view0),
                self.inv(),
                self.same_wiring(start),
                forall|k: int|
                    0 <= k < start.len() ==> (#[trigger] self.nodes@[k]).handed@
                        == start[k].handed@ + inbound(view0, view0[k].name, i as int),
            decreases n - i,
        {
            let ghost prev = self.nodes@;
            let ghost prev_view = self@;
            proof {
                assert forall|k: int| 0 <= k < start.len() implies (#[trigger] prev_view[k]).name
                    == view0[k].name && prev_view[k].peers == view0[k].peers
                    && prev_view[k].outgoing == view0[k].outgoing by {
                    assert(self.nodes@[k].name == start[k].name);
                }
                lemma_same_topology(view0, prev_view);
            }
            self.deliver_from(i);
            proof {
                assert forall|k: int| 0 <= k < start.len() implies (#[trigger] self.nodes@[k]).name
                    == start[k].name && self.nodes@[k].peers == start[k].peers
                    && self.nodes@[k].outgoing == start[k].outgoing by {
                    assert(self.nodes@[k].name == prev[k].name);
                    assert(prev[k].name == start[k].name);
                }
                assert forall|k: int| 0 <= k < start.len() implies (
                #[trigger] self.nodes@[k]).handed@ == start[k].handed@
                    + inbound(view0, view0[k].name, i + 1) by {
                    assert(prev[k].name == start[k].name);
                    assert(prev_view[i as int].peers == view0[i as int].peers);
                    assert(prev_view[i as int].outgoing == view0[i as int].outgoing);
                    assert(prev_view[k].name == view0[k].name);
                    let step = if view0[i as int].peers.contains(view0[k].name) {
                        view0[i as int].outgoing
                    } else {
                        Seq::<u8>::empty()
                    };
                    assert((start[k].handed@ + inbound(view0, view0[k].name, i as int))
                        + step =~= start[k].handed@ + (inbound(
                        view0,
                        view0[k].name,
                        i as int,
                    ) + step));
                }
            }
            i += 1;
        }
        let mut c: usize = 0;
        let ghost full = self.nodes@;
        while c < n
            invariant
                c <= n,
                n == full.len(),
                self.nodes@.len() == n,
                forall|k: int| 0 <= k < n ==> (#[trigger] full[k]).inv(),
                forall|k: int|
                    0 <= k < n ==> (#[trigger] self.nodes@[k]).name == full[k].name
                        && self.nodes@[k].peers == full[k].peers && self.nodes@[k].handed
                        == full[k].handed,
                forall|k: int| 0 <= k < c ==> (#[trigger] self.nodes@[k]).outgoing@.len() == 0,
            decreases n - c,
        {
            let ghost prev = self.nodes@;
            self.nodes[c].outgoing.clear();
            proof {
                assert forall|k: int| 0 <= k < n implies (#[trigger] self.nodes@[k]).name
                    == full[k].name && self.nodes@[k].peers == full[k].peers
                    && self.nodes@[k].handed == full[k].handed by {
                    if k != c {
                        assert(self.nodes@[k] == prev[k]);
                    }
                }
                assert forall|k: int| 0 <= k < c + 1 implies (
                #[trigger] self.nodes@[k]).outgoing@.len() == 0 by {
                    if k != c {
                        assert(self.nodes@[k] == prev[k]);
                    }
                }
            }
            c += 1;
        }
        proof {
            let after = self@;
            assert forall|k: int| 0 <= k < view0.len() implies #[trigger] after[k] == (NodeState {
                outgoing: Seq::empty(),
                handed: view0[k].handed + inbound(view0, view0[k].name, view0.len() as int),
                ..view0[k]
            }) by {
                assert(self.nodes@[k].name == full[k].name);
                assert(full[k].name == start[k].name);
                assert(after[k].outgoing =~= Seq::<u8>::empty());
            }
            assert(after =~= delivered(view0));
            lemma_same_topology(view0, after);
            assert forall|k: int| 0 <= k < self.nodes@.len() implies (#[trigger] self.nodes@[k]).inv() by {
                assert(self.nodes@[k].peers == full[k].peers);
                assert(full[k].inv());
            }
        }
    }
}

/// In a well-formed topology two positions that hold the same name are the
/// same position.
pub proof fn lemma_distinct_names(nodes: Seq<NodeState>, i: int, j: int)
    requires
        well_formed(nodes),
        0 <= i < nodes.len(),
        0 <= j < nodes.len(),
    ensures
        nodes[i].name == nodes[j].name ==> i == j,
{
    if i < j {
        assert(nodes[i].name != nodes[j].name);
    } else if j < i {
        assert(nodes[j].name != nodes[i].name);
    }
}

/// A filter that every element passes keeps the sequence as it is.
pub proof fn lemma_filter_keeps_all<A>(s: Seq<A>, pred: spec_fn(A) -> bool)
    requires
        forall|i: int| 0 <= i < s.len() ==> pred(#[trigger] s[i]),
    ensures
        s.filter(pred) == s,
    decreases s.len(),
{
    reveal(Seq::filter);
    if s.len() > 0 {
        lemma_filter_keeps_all(s.drop_last(), pred);
        assert(s.drop_last().push(s.last()) =~= s);
    } else {
        assert(s.filter(pred) =~= s);
    }
}

/// A filter that every element but the one at `i` passes removes exactly that
/// element.
pub proof fn lemma_filter_drops_one<A>(s: Seq<A>, pred: spec_fn(A) -> bool, i: int)
    requires
        0 <= i < s.len(),
        !pred(s[i]),
        forall|k: int| 0 <= k < s.len() && k != i ==> pred(#[trigger] s[k]),
    ensures
        s.filter(pred) == s.remove(i),
    decreases s.len(),
{
    reveal(Seq::filter);
    if i == s.len() - 1 {
        lemma_filter_keeps_all(s.drop_last(), pred);
        assert(s.remove(i) =~= s.drop_last());
    } else {
        lemma_filter_drops_one(s.drop_last(), pred, i);
        assert(s.drop_last().remove(i).push(s.last()) =~= s.remove(i));
    }
}

/// Two topologies whose nodes agree on names and peers are well-formed
/// together.
pub proof fn lemma_same_topology(before: Seq<NodeState>, after: Seq<NodeState>)
    requires
        well_formed(before),
        before.len() == after.len(),
        forall|i: int|
            0 <= i < before.len() ==> (#[trigger] after[i]).name == before[i].name
                && after[i].peers == before[i].peers,
    ensures
        well_formed(after),
{
    assert forall|i: int, j: int| 0 <= i < j < after.len() implies (#[trigger] after[i]).name != (
    #[trigger] after[j]).name by {
        assert(before[i].name != before[j].name);
    }
    assert forall|i: int| 0 <= i < after.len() implies !(#[trigger] after[i]).peers.contains(
        after[i].name,
    ) by {
        assert(!before[i].peers.contains(before[i].name));
    }
    assert forall|i: int, p: Seq<char>|
        0 <= i < after.len() && #[trigger] after[i].peers.contains(p) implies has_node(
        after,
        p,
    ) by {
        assert(before[i].peers.contains(p));
        let k = choose|k: int| 0 <= k < before.len() && (#[trigger] before[k]).name == p;
        assert(after[k].name == p);
    }
    assert forall|i: int, j: int|
        0 <= i < after.len() && 0 <= j < after.len() && (#[trigger] after[i]).peers.contains(
            (#[trigger] after[j]).name,
        ) implies after[j].peers.contains(after[i].name) by {
        assert(before[i].peers.contains(before[j].name));
    }
}

/// Joining two distinct registered nodes keeps a topology well-formed.
pub proof fn lemma_linked_well_formed(nodes: Seq<NodeState>, a: Seq<char>, b: Seq<char>)
    requires
        well_formed(nodes),
        has_node(nodes, a),
        has_node(nodes, b),
        a != b,
    ensures
        well_formed(linked(nodes, a, b)),
{
    let after = linked(nodes, a, b);
    let ia = choose|i: int| 0 <= i < nodes.len() && (#[trigger] nodes[i]).name == a;
    let ib = choose|i: int| 0 <= i < nodes.len() && (#[trigger] nodes[i]).name == b;
    assert forall|i: int, j: int| 0 <= i < j < after.len() implies (#[trigger] after[i]).name != (
    #[trigger] after[j]).name by {
        assert(nodes[i].name != nodes[j].name);
    }
    assert forall|i: int| 0 <= i < after.len() implies !(#[trigger] after[i]).peers.contains(
        after[i].name,
    ) by {
        assert(!nodes[i].peers.contains(nodes[i].name));
    }
    assert forall|i: int, p: Seq<char>|
        0 <= i < after.len() && #[trigger] after[i].peers.contains(p) implies has_node(
        after,
        p,
    ) by {
        if nodes[i].peers.contains(p) {
            let k = choose|k: int| 0 <= k < nodes.len() && (#[trigger] nodes[k]).name == p;
            assert(after[k].name == p);
        } else if p == a {
            assert(after[ia].name == p);
        } else {
            assert(after[ib].name == p);
        }
    }
    assert forall|i: int, j: int|
        0 <= i < after.len() && 0 <= j < after.len() && (#[trigger] after[i]).peers.contains(
            (#[trigger] after[j]).name,
        ) implies after[j].peers.contains(after[i].name) by {
        if nodes[i].peers.contains(nodes[j].name) {
            assert(nodes[j].peers.contains(nodes[i].name));
        }
    }
}

/// Parting two nodes keeps a topology well-formed.
pub proof fn lemma_unlinked_well_formed(nodes: Seq<NodeState>, a: Seq<char>, b: Seq<char>)
    requires
        well_formed(nodes),
    ensures
        well_formed(unlinked(nodes, a, b)),
{
    let after = unlinked(nodes, a, b);
    assert forall|i: int, j: int| 0 <= i < j < after.len() implies (#[trigger] after[i]).name != (
    #[trigger] after[j]).name by {
        assert(nodes[i].name != nodes[j].name);
    }
    assert forall|i: int| 0 <= i < after.len() implies !(#[trigger] after[i]).peers.contains(
        after[i].name,
    ) by {
        assert(!nodes[i].peers.contains(nodes[i].name));
    }
    assert forall|i: int, p: Seq<char>|
        0 <= i < after.len() && #[trigger] after[i].peers.contains(p) implies has_node(
        after,
        p,
    ) by {
        assert(nodes[i].peers.contains(p));
        let k = choose|k: int| 0 <= k < nodes.len() && (#[trigger] nodes[k]).name == p;
        assert(after[k].name == p);
    }
    assert forall|i: int, j: int|
        0 <= i < after.len() && 0 <= j < after.len() && (#[trigger] after[i]).peers.contains(
            (#[trigger] after[j]).name,
        ) implies after[j].peers.contains(after[i].name) by {
        assert(nodes[i].peers.contains(nodes[j].name));
        assert(nodes[j].peers.contains(nodes[i].name));
    }
}

/// Removing the node at `i` and every edge to it keeps a topology
/// well-formed.
pub proof fn lemma_destroy_keeps_well_formed(nodes: Seq<NodeState>, name: Seq<char>, i: int)
    requires
        well_formed(nodes),
        0 <= i < nodes.len(),
        nodes[i].name == name,
        destroy_spec(nodes, name) == nodes.remove(i).map_values(
            |n: NodeState| without_peer(n, name),
        ),
    ensures
        well_formed(destroy_spec(nodes, name)),
{
    let after = destroy_spec(nodes, name);
    let src = |k: int| if k < i { k } else { k + 1 };
    assert forall|k: int| 0 <= k < after.len() implies (#[trigger] after[k]) == without_peer(
        nodes[src(k)],
        name,
    ) by {}
    assert forall|x: int, y: int| 0 <= x < y < after.len() implies (#[trigger] after[x]).name != (
    #[trigger] after[y]).name by {
        assert(after[x] == without_peer(nodes[src(x)], name));
        assert(after[y] == without_peer(nodes[src(y)], name));
        assert(nodes[src(x)].name != nodes[src(y)].name);
    }
    assert forall|x: int| 0 <= x < after.len() implies !(#[trigger] after[x]).peers.contains(
        after[x].name,
    ) by {
        assert(after[x] == without_peer(nodes[src(x)], name));
        assert(!nodes[src(x)].peers.contains(nodes[src(x)].name));
    }
    assert forall|x: int, p: Seq<char>|
        0 <= x < after.len() && #[trigger] after[x].peers.contains(p) implies has_node(
        after,
        p,
    ) by {
        assert(after[x] == without_peer(nodes[src(x)], name));
        assert(nodes[src(x)].peers.contains(p));
        let k = choose|k: int| 0 <= k < nodes.len() && (#[trigger] nodes[k]).name == p;
        lemma_distinct_names(nodes, k, i);
        let k2 = if k < i { k } else { k - 1 };
        assert(after[k2] == without_peer(nodes[src(k2)], name));
        assert(after[k2].name == p);
    }
    assert forall|x: int, y: int|
        0 <= x < after.len() && 0 <= y < after.len() && (#[trigger] after[x]).peers.contains(
            (#[trigger] after[y]).name,
        ) implies after[y].peers.contains(after[x].name) by {
        assert(after[x] == without_peer(nodes[src(x)], name));
        assert(after[y] == without_peer(nodes[src(y)], name));
        assert(nodes[src(x)].peers.contains(nodes[src(y)].name));
        assert(nodes[src(y)].peers.contains(nodes[src(x)].name));
        lemma_distinct_names(nodes, src(x), i);
    }
}

/// The node named `name`, where one is registered.
pub open spec fn node_named(nodes: Seq<NodeState>, name: Seq<char>) -> NodeState
    recommends
        has_node(nodes, name),
{
    nodes[choose|i: int| 0 <= i < nodes.len() && (#[trigger] nodes[i]).name == name]
}

/// The peers of the node named `name`; none where no such node is
/// registered.
pub open spec fn peers_of(nodes: Seq<NodeState>, name: Seq<char>) -> Set<Seq<char>> {
    if has_node(nodes, name) {
        node_named(nodes, name).peers
    } else {
        Set::empty()
    }
}

/// In a well-formed topology the node at a position is the node of its name.
pub proof fn lemma_node_named(nodes: Seq<NodeState>, i: int)
    requires
        well_formed(nodes),
        0 <= i < nodes.len(),
    ensures
        has_node(nodes, nodes[i].name),
        node_named(nodes, nodes[i].name) == nodes[i],
{
    let j = choose|j: int| 0 <= j < nodes.len() && (#[trigger] nodes[j]).name == nodes[i].name;
    lemma_distinct_names(nodes, i, j);
}

/// Edges are symmetric when made: after `a` and `b` are joined, `a` lists `b`
/// and `b` lists `a`.
pub proof fn lemma_connect_symmetric(nodes: Seq<NodeState>, a: Seq<char>, b: Seq<char>)
    requires
        well_formed(nodes),
        connect_spec(nodes, a, b) is Ok,
    ensures
        peers_of(connect_spec(nodes, a, b)->Ok_0, a).contains(b),
        peers_of(connect_spec(nodes, a, b)->Ok_0, b).contains(a),
{
    let after = linked(nodes, a, b);
    lemma_linked_well_formed(nodes, a, b);
    let ia = choose|i: int| 0 <= i < nodes.len() && (#[trigger] nodes[i]).name == a;
    let ib = choose|i: int| 0 <= i < nodes.len() && (#[trigger] nodes[i]).name == b;
    assert(after[ia].name == a);
    assert(after[ib].name == b);
    lemma_node_named(after, ia);
    lemma_node_named(after, ib);
}

/// Edges are symmetric when struck: after `a` and `b` are parted, neither
/// lists the other.
pub proof fn lemma_disconnect_symmetric(nodes: Seq<NodeState>, a: Seq<char>, b: Seq<char>)
    requires
        well_formed(nodes),
        disconnect_spec(nodes, a, b) is Ok,
    ensures
        !peers_of(disconnect_spec(nodes, a, b)->Ok_0, a).contains(b),
        !peers_of(disconnect_spec(nodes, a, b)->Ok_0, b).contains(a),
{
    let after = unlinked(nodes, a, b);
    lemma_unlinked_well_formed(nodes, a, b);
    let ia = choose|i: int| 0 <= i < nodes.len() && (#[trigger] nodes[i]).name == a;
    let ib = choose|i: int| 0 <= i < nodes.len() && (#[trigger] nodes[i]).name == b;
    assert(after[ia].name == a);
    assert(after[ib].name == b);
    lemma_node_named(after, ia);
    lemma_node_named(after, ib);
    assert(!nodes[ia].peers.contains(nodes[ia].name));
}

/// In a well-formed topology every edge is seen from both ends: `a` lists `b`
/// exactly when `b` lists `a`, and no node lists itself.
pub proof fn lemma_edges_symmetric(nodes: Seq<NodeState>, a: Seq<char>, b: Seq<char>)
    requires
        well_formed(nodes),
    ensures
        peers_of(nodes, a).contains(b) <==> peers_of(nodes, b).contains(a),
        !peers_of(nodes, a).contains(a),
{
    if peers_of(nodes, a).contains(b) {
        let ia = choose|i: int| 0 <= i < nodes.len() && (#[trigger] nodes[i]).name == a;
        assert(has_node(nodes, b));
        let ib = choose|i: int| 0 <= i < nodes.len() && (#[trigger] nodes[i]).name == b;
        assert(nodes[ib].peers.contains(nodes[ia].name));
    }
    if peers_of(nodes, b).contains(a) {
        let ib = choose|i: int| 0 <= i < nodes.len() && (#[trigger] nodes[i]).name == b;
        assert(has_node(nodes, a));
        let ia = choose|i: int| 0 <= i < nodes.len() && (#[trigger] nodes[i]).name == a;
        assert(nodes[ia].peers.contains(nodes[ib].name));
    }
    if has_node(nodes, a) {
        let ia = choose|i: int| 0 <= i < nodes.len() && (#[trigger] nodes[i]).name == a;
        assert(!nodes[ia].peers.contains(nodes[ia].name));
    }
}

/// What the first `k` nodes hand to `recipient` when the node at `s` is the
/// only one among them that may have bytes queued.
pub proof fn lemma_inbound_single_sender(
    nodes: Seq<NodeState>,
    recipient: Seq<char>,
    s: int,
    k: int,
)
    requires
        0 <= s < nodes.len(),
        0 <= k <= nodes.len(),
        forall|i: int| 0 <= i < nodes.len() && i != s ==> (#[trigger] nodes[i]).outgoing.len() == 0,
    ensures
        inbound(nodes, recipient, k) == if s < k && nodes[s].peers.contains(recipient) {
            nodes[s].outgoing
        } else {
            Seq::<u8>::empty()
        },
    decreases k,
{
    if k > 0 {
        lemma_inbound_single_sender(nodes, recipient, s, k - 1);
        let rest = inbound(nodes, recipient, k - 1);
        if k - 1 == s {
            assert(rest + nodes[s].outgoing =~= nodes[s].outgoing);
            assert(rest + Seq::<u8>::empty() =~= rest);
        } else {
            assert(nodes[k - 1].outgoing =~= Seq::<u8>::empty());
            assert(rest + Seq::<u8>::empty() =~= rest);
        }
    }
}

/// Delivery is confined to peers: when the node at `s` alone has bytes
/// queued, one delivery hands exactly its queue, in order, to each of its
/// peers, and nothing to any other node.
pub proof fn lemma_delivery_isolation(nodes: Seq<NodeState>, s: int)
    requires
        0 <= s < nodes.len(),
        forall|i: int| 0 <= i < nodes.len() && i != s ==> (#[trigger] nodes[i]).outgoing.len() == 0,
    ensures
        forall|k: int|
            0 <= k < nodes.len() ==> (#[trigger] delivered(nodes)[k]).handed == if nodes[s].peers.contains(
                nodes[k].name,
            ) {
                nodes[k].handed + nodes[s].outgoing
            } else {
                nodes[k].handed
            },
{
    assert forall|k: int| 0 <= k < nodes.len() implies (#[trigger] delivered(nodes)[k]).handed
        == if nodes[s].peers.contains(nodes[k].name) {
        nodes[k].handed + nodes[s].outgoing
    } else {
        nodes[k].handed
    } by {
        lemma_inbound_single_sender(nodes, nodes[k].name, s, nodes.len() as int);
        assert(nodes[k].handed + Seq::<u8>::empty() =~= nodes[k].handed);
    }
}

/// What a delivery hands to a recipient does not depend on the queue of a
/// node that does not list the recipient.
pub proof fn lemma_inbound_ignores_stranger(
    nodes: Seq<NodeState>,
    recipient: Seq<char>,
    i: int,
    data: Seq<u8>,
    k: int,
)
    requires
        0 <= i < nodes.len(),
        0 <= k <= nodes.len(),
        !nodes[i].peers.contains(recipient),
    ensures
        inbound(nodes.update(i, with_queued(nodes[i], data)), recipient, k) == inbound(
            nodes,
            recipient,
            k,
        ),
    decreases k,
{
    if k > 0 {
        lemma_inbound_ignores_stranger(nodes, recipient, i, data, k - 1);
    }
}

/// No node is handed its own bytes: in a well-formed topology, whatever a
/// node queues, a delivery hands that node the same bytes as if it had queued
/// nothing more.
pub proof fn lemma_no_self_delivery(nodes: Seq<NodeState>, i: int, data: Seq<u8>)
    requires
        well_formed(nodes),
        0 <= i < nodes.len(),
    ensures
        inbound(
            nodes.update(i, with_queued(nodes[i], data)),
            nodes[i].name,
            nodes.len() as int,
        ) == inbound(nodes, nodes[i].name, nodes.len() as int),
{
    assert(!nodes[i].peers.contains(nodes[i].name));
    lemma_inbound_ignores_stranger(nodes, nodes[i].name, i, data, nodes.len() as int);
}

/// What the first `k` nodes hand to anyone when all queues are empty:
/// nothing.
pub proof fn lemma_inbound_of_empty_queues(nodes: Seq<NodeState>, recipient: Seq<char>, k: int)
    requires
        0 <= k <= nodes.len(),
        forall|i: int| 0 <= i < nodes.len() ==> (#[trigger] nodes[i]).outgoing.len() == 0,
    ensures
        inbound(nodes, recipient, k) == Seq::<u8>::empty(),
    decreases k,
{
    if k > 0 {
        lemma_inbound_of_empty_queues(nodes, recipient, k - 1);
        assert(nodes[k - 1].outgoing =~= Seq::<u8>::empty());
        assert(Seq::<u8>::empty() + Seq::<u8>::empty() =~= Seq::<u8>::empty());
    }
}

/// Queued bytes are delivered once: a second delivery right after the first
/// hands nothing to anyone.
pub proof fn lemma_delivered_once(nodes: Seq<NodeState>)
    ensures
        delivered(delivered(nodes)) == delivered(nodes),
{
    let once = delivered(nodes);
    assert forall|k: int| 0 <= k < once.len() implies #[trigger] delivered(once)[k] == once[k] by {
        lemma_inbound_of_empty_queues(once, once[k].name, once.len() as int);
        assert(once[k].handed + Seq::<u8>::empty() =~= once[k].handed);
    }
    assert(delivered(once) =~= once);
}

} // verus!
